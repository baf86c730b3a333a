//! Routes of networks outside the mesh to nodes.
use vstd::prelude::*;
use crate::bytes::{
    bytes_less, lemma_lex_irreflexive, lemma_lex_total, lemma_lex_transitive, lex_less,
};
use crate::config::TunnelRoutingConfig;
use crate::nets::{
    cidr_of, in_mesh, in_net, is_yggdrasil_destination, parse_cidr, Cidr, Ip,
};
use crate::seqs::{first_index, lemma_first_index, lemma_first_index_at};
use crate::texts::{hex_decode, is_hex, key_of_hex, parse_key};
use crate::wire::{array_of, lemma_array_of};

verus! {

/// A route: a network, and the node behind which it is.
#[derive(Clone, Copy, Debug, PartialEq, Eq)]
pub struct Route {
    pub prefix: Cidr,
    pub destination: [u8; 32],
}

/// What is wrong with a configuration. The first number is the place of the key, the second that
/// of the network under it.
#[derive(Clone, Copy, Debug, PartialEq, Eq, Structural)]
pub enum CkrError {
    /// The key is not hexadecimal.
    KeyHex(usize),
    /// The key has not thirty-two bytes.
    KeyLength(usize),
    /// The text is no network.
    Cidr(usize, usize),
    /// The network is in the mesh.
    MeshSubnet(usize, usize),
    /// The network was given before.
    Duplicate(usize, usize),
}

/// The routes, those to more specific networks first.
pub struct CryptoKey {
    pub yggdrasil_routing: bool,
    pub v4_routes: Vec<Route>,
    pub v6_routes: Vec<Route>,
}

/// The lists of routes.
#[verifier::ext_equal]
pub struct Routes {
    pub v4: Seq<Route>,
    pub v6: Seq<Route>,
}

impl View for CryptoKey {
    type V = Routes;

    open spec fn view(&self) -> Routes {
        Routes { v4: self.v4_routes@, v6: self.v6_routes@ }
    }
}

/// Whether a route comes before another: its prefix is longer, or it is as long and its address
/// is lower.
pub open spec fn before(a: Route, b: Route) -> bool {
    a.prefix.prefix_len > b.prefix.prefix_len || (a.prefix.prefix_len == b.prefix.prefix_len
        && lex_less(a.prefix.addr.octets(), b.prefix.addr.octets()))
}

/// No route stands behind one that it comes before.
pub open spec fn in_order(s: Seq<Route>) -> bool {
    forall|i: int, j: int| 0 <= i < j < s.len() ==> !before(#[trigger] s[j], #[trigger] s[i])
}

/// The list with a route in its place.
pub open spec fn placed(s: Seq<Route>, r: Route) -> Seq<Route> {
    s.insert(first_index(s, |x: Route| before(r, x)), r)
}

/// Whether a list has a route to the network.
pub open spec fn has_net(s: Seq<Route>, c: Cidr) -> bool {
    exists|i: int| 0 <= i < s.len() && (#[trigger] s[i]).prefix == c
}

/// The routes with a network added.
pub open spec fn net_added(
    r: Routes,
    text: Seq<char>,
    dest: [u8; 32],
    entry: nat,
    at: nat,
) -> Result<Routes, CkrError> {
    match cidr_of(text) {
        None => Err(CkrError::Cidr(entry as usize, at as usize)),
        Some(c) => {
            let route = Route { prefix: c, destination: dest };
            match c.addr {
                Ip::V6(_) => if in_mesh(c.addr) {
                    Err(CkrError::MeshSubnet(entry as usize, at as usize))
                } else if has_net(r.v6, c) {
                    Err(CkrError::Duplicate(entry as usize, at as usize))
                } else {
                    Ok(Routes { v6: placed(r.v6, route), ..r })
                },
                Ip::V4(_) => if has_net(r.v4, c) {
                    Err(CkrError::Duplicate(entry as usize, at as usize))
                } else {
                    Ok(Routes { v4: placed(r.v4, route), ..r })
                },
            }
        },
    }
}

/// The routes with the first `n` networks of an entry added.
pub open spec fn nets_added(
    r: Routes,
    nets: Seq<String>,
    dest: [u8; 32],
    entry: nat,
    n: nat,
) -> Result<Routes, CkrError>
    decreases n,
{
    if n == 0 {
        Ok(r)
    } else {
        match nets_added(r, nets, dest, entry, (n - 1) as nat) {
            Err(e) => Err(e),
            Ok(s) => net_added(s, nets[n - 1]@, dest, entry, (n - 1) as nat),
        }
    }
}

/// The node of an entry.
pub open spec fn entry_key(text: Seq<char>, entry: nat) -> Result<[u8; 32], CkrError> {
    if !is_hex(text) {
        Err(CkrError::KeyHex(entry as usize))
    } else {
        match key_of_hex(text) {
            None => Err(CkrError::KeyLength(entry as usize)),
            Some(k) => Ok(array_of::<32>(k)),
        }
    }
}

/// The routes of the first `n` entries.
pub open spec fn routes_of(entries: Seq<(String, Vec<String>)>, n: nat) -> Result<Routes, CkrError>
    decreases n,
{
    if n == 0 {
        Ok(Routes { v4: Seq::empty(), v6: Seq::empty() })
    } else {
        match routes_of(entries, (n - 1) as nat) {
            Err(e) => Err(e),
            Ok(r) => match entry_key(entries[n - 1].0@, (n - 1) as nat) {
                Err(e) => Err(e),
                Ok(k) => nets_added(
                    r,
                    entries[n - 1].1@,
                    k,
                    (n - 1) as nat,
                    entries[n - 1].1@.len(),
                ),
            },
        }
    }
}

/// The routes of a configuration: none where routing is not enabled.
pub open spec fn configured(cfg: TunnelRoutingConfig) -> Result<Routes, CkrError> {
    if cfg.enable {
        routes_of(cfg.remote_subnets@, cfg.remote_subnets@.len())
    } else {
        Ok(Routes { v4: Seq::empty(), v6: Seq::empty() })
    }
}

/// Every network of a list is one, is of the family, and occurs once; the list is in order.
pub open spec fn list_wf(s: Seq<Route>, v6: bool) -> bool {
    &&& in_order(s)
    &&& forall|i: int|
        0 <= i < s.len() ==> (#[trigger] s[i]).prefix.wf() && (s[i].prefix.addr is V6) == v6
    &&& forall|i: int, j: int|
        0 <= i < j < s.len() ==> (#[trigger] s[i]).prefix != (#[trigger] s[j]).prefix
}

/// The invariant of the lists. No network is in the mesh.
pub open spec fn routes_wf(r: Routes) -> bool {
    &&& list_wf(r.v4, false)
    &&& list_wf(r.v6, true)
    &&& forall|i: int| 0 <= i < r.v6.len() ==> !in_mesh((#[trigger] r.v6[i]).prefix.addr)
}

proof fn lemma_before_order(a: Route, b: Route, c: Route)
    ensures
        !(before(a, b) && before(b, a)),
        before(a, b) && !before(c, b) ==> !before(c, a),
{
    let x = a.prefix.addr.octets();
    let y = b.prefix.addr.octets();
    let z = c.prefix.addr.octets();
    if lex_less(x, y) && lex_less(y, x) {
        lemma_lex_transitive(x, y, x);
        lemma_lex_irreflexive(x);
    }
    lemma_lex_total(z, y);
    lemma_lex_total(z, x);
    if lex_less(z, x) && lex_less(x, y) {
        lemma_lex_transitive(z, x, y);
    }
}

proof fn lemma_placed(s: Seq<Route>, r: Route, v6: bool)
    requires
        list_wf(s, v6),
        r.prefix.wf(),
        (r.prefix.addr is V6) == v6,
        !has_net(s, r.prefix),
    ensures
        list_wf(placed(s, r), v6),
        forall|i: int|
            0 <= i < placed(s, r).len() ==> (#[trigger] placed(s, r)[i]) == r || s.contains(
                placed(s, r)[i],
            ),
{
    let p = |x: Route| before(r, x);
    let at = first_index(s, p);
    lemma_first_index(s, p);
    let t = placed(s, r);
    assert forall|i: int, j: int| 0 <= i < j < t.len() implies !before(
        #[trigger] t[j],
        #[trigger] t[i],
    ) by {
        let si = if i < at { i } else { i - 1 };
        let sj = if j < at { j } else { j - 1 };
        if i == at {
            // Everything behind the place comes no earlier than what stood in it.
            lemma_before_order(r, s[at], s[sj]);
            if sj > at {
                assert(!before(s[sj], s[at]));
            } else {
                lemma_before_order(r, s[at], r);
            }
        } else if j == at {
            assert(!p(s[i]));
        } else {
            assert(!before(s[sj], s[si]));
        }
    }
    assert forall|i: int| 0 <= i < t.len() implies (#[trigger] t[i]) == r || s.contains(t[i]) by {
        if i < at {
            assert(t[i] == s[i]);
        } else if i > at {
            assert(t[i] == s[i - 1]);
        }
    }
    assert forall|i: int, j: int| 0 <= i < j < t.len() implies (#[trigger] t[i]).prefix != (
    #[trigger] t[j]).prefix by {
        let si = if i < at { i } else { i - 1 };
        let sj = if j < at { j } else { j - 1 };
        if i == at {
            assert(s[sj].prefix != r.prefix);
        } else if j == at {
            assert(s[si].prefix != r.prefix);
        } else {
            assert(s[si].prefix != s[sj].prefix);
        }
    }
}

fn comes_before(a: &Route, b: &Route) -> (r: bool)
    requires
        (a.prefix.addr is V6) == (b.prefix.addr is V6),
    ensures
        r == before(*a, *b),
{
    if a.prefix.prefix_len != b.prefix.prefix_len {
        return a.prefix.prefix_len > b.prefix.prefix_len;
    }
    match (&a.prefix.addr, &b.prefix.addr) {
        (Ip::V4(x), Ip::V4(y)) => bytes_less(x.as_slice(), y.as_slice()),
        (Ip::V6(x), Ip::V6(y)) => bytes_less(x.as_slice(), y.as_slice()),
        _ => false,
    }
}

/// Puts a route in its place.
fn place(s: &mut Vec<Route>, r: Route, Ghost(v6): Ghost<bool>)
    requires
        list_wf(old(s)@, v6),
        (r.prefix.addr is V6) == v6,
    ensures
        final(s)@ == placed(old(s)@, r),
{
    let mut i: usize = 0;
    let ghost p = |x: Route| before(r, x);
    while i < s.len() && !comes_before(&r, &s[i])
        invariant
            i <= s@.len(),
            s@ == old(s)@,
            list_wf(s@, v6),
            (r.prefix.addr is V6) == v6,
            forall|j: int| 0 <= j < i ==> !before(r, #[trigger] s@[j]),
        decreases s@.len() - i,
    {
        i = i + 1;
    }
    proof {
        lemma_first_index_at(s@, p, i as int);
    }
    s.insert(i, r);
}

fn knows_net(s: &Vec<Route>, c: &Cidr) -> (r: bool)
    ensures
        r == has_net(s@, *c),
{
    let mut i: usize = 0;
    while i < s.len()
        invariant
            i <= s@.len(),
            forall|j: int| 0 <= j < i ==> (#[trigger] s@[j]).prefix != *c,
        decreases s@.len() - i,
    {
        if s[i].prefix.same(c) {
            assert(s@[i as int].prefix == *c);
            return true;
        }
        i = i + 1;
    }
    false
}

fn read_entry_key(text: &str, entry: usize) -> (r: Result<[u8; 32], CkrError>)
    ensures
        r == entry_key(text@, entry as nat),
{
    match parse_key(text) {
        Some(k) => {
            proof {
                lemma_array_of(k);
            }
            Ok(k)
        },
        None => match hex_decode(text) {
            None => Err(CkrError::KeyHex(entry)),
            Some(_) => Err(CkrError::KeyLength(entry)),
        },
    }
}

proof fn lemma_nets_error(r: Routes, nets: Seq<String>, dest: [u8; 32], entry: nat, n: nat, m: nat)
    requires
        n <= m,
        nets_added(r, nets, dest, entry, n) is Err,
    ensures
        nets_added(r, nets, dest, entry, m) == nets_added(r, nets, dest, entry, n),
    decreases m,
{
    if n < m {
        lemma_nets_error(r, nets, dest, entry, n, (m - 1) as nat);
    }
}

proof fn lemma_routes_error(entries: Seq<(String, Vec<String>)>, n: nat, m: nat)
    requires
        n <= m,
        routes_of(entries, n) is Err,
    ensures
        routes_of(entries, m) == routes_of(entries, n),
    decreases m,
{
    if n < m {
        lemma_routes_error(entries, n, (m - 1) as nat);
    }
}

impl CryptoKey {
    /// The routes of a configuration.
    pub fn new(config: &TunnelRoutingConfig) -> (r: Result<Self, CkrError>)
        ensures
            match configured(*config) {
                Err(e) => r == Err::<Self, CkrError>(e),
                Ok(routes) => r matches Ok(t) && t@ == routes && t.yggdrasil_routing
                    == config.yggdrasil_routing && routes_wf(t@),
            },
    {
        let mut t = CryptoKey {
            yggdrasil_routing: config.yggdrasil_routing,
            v4_routes: Vec::new(),
            v6_routes: Vec::new(),
        };
        if !config.enable {
            return Ok(t);
        }
        let mut i: usize = 0;
        while i < config.remote_subnets.len()
            invariant
                i <= config.remote_subnets@.len(),
                config.enable,
                t.yggdrasil_routing == config.yggdrasil_routing,
                routes_wf(t@),
                routes_of(config.remote_subnets@, i as nat) == Ok::<Routes, CkrError>(t@),
            decreases config.remote_subnets@.len() - i,
        {
            let ghost entries = config.remote_subnets@;
            let dest = match read_entry_key(config.remote_subnets[i].0.as_str(), i) {
                Ok(k) => k,
                Err(e) => {
                    proof {
                        lemma_routes_error(entries, (i + 1) as nat, entries.len());
                    }
                    return Err(e);
                },
            };
            if let Err(e) = t.add_nets(&config.remote_subnets[i].1, dest, i) {
                proof {
                    lemma_routes_error(entries, (i + 1) as nat, entries.len());
                }
                return Err(e);
            }
            i = i + 1;
        }
        Ok(t)
    }

    fn add_nets(&mut self, nets: &Vec<String>, dest: [u8; 32], entry: usize) -> (r: Result<
        (),
        CkrError,
    >)
        requires
            routes_wf(old(self)@),
        ensures
            match nets_added(old(self)@, nets@, dest, entry as nat, nets@.len()) {
                Err(e) => r == Err::<(), CkrError>(e),
                Ok(routes) => r is Ok && final(self)@ == routes && routes_wf(final(self)@),
            },
            final(self).yggdrasil_routing == old(self).yggdrasil_routing,
    {
        let mut n: usize = 0;
        let ghost before_all = self@;
        while n < nets.len()
            invariant
                n <= nets@.len(),
                self.yggdrasil_routing == old(self).yggdrasil_routing,
                routes_wf(self@),
                before_all == old(self)@,
                nets_added(before_all, nets@, dest, entry as nat, n as nat) == Ok::<
                    Routes,
                    CkrError,
                >(self@),
            decreases nets@.len() - n,
        {
            if let Err(e) = self.add_net(nets[n].as_str(), dest, entry, n) {
                proof {
                    lemma_nets_error(
                        before_all,
                        nets@,
                        dest,
                        entry as nat,
                        (n + 1) as nat,
                        nets@.len(),
                    );
                }
                return Err(e);
            }
            n = n + 1;
        }
        Ok(())
    }

    fn add_net(&mut self, text: &str, dest: [u8; 32], entry: usize, at: usize) -> (r: Result<
        (),
        CkrError,
    >)
        requires
            routes_wf(old(self)@),
        ensures
            match net_added(old(self)@, text@, dest, entry as nat, at as nat) {
                Err(e) => r == Err::<(), CkrError>(e),
                Ok(routes) => r is Ok && final(self)@ == routes && routes_wf(final(self)@),
            },
            final(self).yggdrasil_routing == old(self).yggdrasil_routing,
    {
        let c = match parse_cidr(text) {
            Some(c) => c,
            None => {
                return Err(CkrError::Cidr(entry, at));
            },
        };
        let route = Route { prefix: c, destination: dest };
        match c.addr {
            Ip::V6(_) => {
                if is_yggdrasil_destination(&c.addr) {
                    return Err(CkrError::MeshSubnet(entry, at));
                }
                if knows_net(&self.v6_routes, &c) {
                    return Err(CkrError::Duplicate(entry, at));
                }
                proof {
                    lemma_placed(self.v6_routes@, route, true);
                }
                place(&mut self.v6_routes, route, Ghost(true));
                proof {
                    assert forall|i: int| 0 <= i < self@.v6.len() implies !in_mesh(
                        (#[trigger] self@.v6[i]).prefix.addr,
                    ) by {
                        if self@.v6[i] != route {
                            let k = choose|k: int|
                                0 <= k < old(self)@.v6.len() && old(self)@.v6[k] == self@.v6[i];
                            assert(!in_mesh(old(self)@.v6[k].prefix.addr));
                        }
                    }
                }
            },
            Ip::V4(_) => {
                if knows_net(&self.v4_routes, &c) {
                    return Err(CkrError::Duplicate(entry, at));
                }
                proof {
                    lemma_placed(self.v4_routes@, route, false);
                }
                place(&mut self.v4_routes, route, Ghost(false));
            },
        }
        Ok(())
    }

    /// Whether addresses of the mesh are routed too.
    pub fn yggdrasil_routing(&self) -> (r: bool)
        ensures
            r == self.yggdrasil_routing,
    {
        self.yggdrasil_routing
    }

    /// The node behind which an address is, by the most specific route.
    pub fn get_public_key_for_address(&self, addr: &Ip) -> (r: Option<[u8; 32]>)
        requires
            routes_wf(self@),
        ensures
            r == routed(self@, *addr),
    {
        if is_yggdrasil_destination(addr) {
            return None;
        }
        let routes = match addr {
            Ip::V4(_) => &self.v4_routes,
            Ip::V6(_) => &self.v6_routes,
        };
        let ghost p = |x: Route| in_net(x.prefix, *addr);
        let mut i: usize = 0;
        while i < routes.len()
            invariant
                i <= routes@.len(),
                forall|j: int| 0 <= j < routes@.len() ==> (#[trigger] routes@[j]).prefix.wf(),
                forall|j: int| 0 <= j < i ==> !in_net((#[trigger] routes@[j]).prefix, *addr),
                p == (|x: Route| in_net(x.prefix, *addr)),
                routes@ == family(self@, *addr),
                !in_mesh(*addr),
            decreases routes@.len() - i,
        {
            if routes[i].prefix.contains(addr) {
                proof {
                    lemma_first_index_at(routes@, p, i as int);
                }
                return Some(routes[i].destination);
            }
            i = i + 1;
        }
        proof {
            lemma_first_index_at(routes@, p, i as int);
        }
        None
    }
}

/// The routes of the family of an address.
pub open spec fn family(r: Routes, addr: Ip) -> Seq<Route> {
    match addr {
        Ip::V4(_) => r.v4,
        Ip::V6(_) => r.v6,
    }
}

/// The node of the first route whose network has the address. Addresses of the mesh have none.
pub open spec fn routed(r: Routes, addr: Ip) -> Option<[u8; 32]> {
    let s = family(r, addr);
    let at = first_index(s, |x: Route| in_net(x.prefix, addr));
    if in_mesh(addr) || at >= s.len() {
        None
    } else {
        Some(s[at].destination)
    }
}

/// The different networks among texts, in the order in which they come first. Where `strict`, a
/// text that is no network is an error; else it is passed over.
pub open spec fn distinct_nets(texts: Seq<String>, n: nat, seen: Seq<Cidr>, strict: bool) -> Result<
    Seq<Cidr>,
    nat,
>
    decreases n,
{
    if n == 0 {
        Ok(seen)
    } else {
        match distinct_nets(texts, (n - 1) as nat, seen, strict) {
            Err(e) => Err(e),
            Ok(s) => match cidr_of(texts[n - 1]@) {
                None => if strict {
                    Err((n - 1) as nat)
                } else {
                    Ok(s)
                },
                Some(c) => Ok(
                    if s.contains(c) {
                        s
                    } else {
                        s.push(c)
                    },
                ),
            },
        }
    }
}

/// The different networks of the first `n` entries.
pub open spec fn system_nets(
    entries: Seq<(String, Vec<String>)>,
    n: nat,
    strict: bool,
) -> Result<Seq<Cidr>, CkrError>
    decreases n,
{
    if n == 0 {
        Ok(Seq::empty())
    } else {
        match system_nets(entries, (n - 1) as nat, strict) {
            Err(e) => Err(e),
            Ok(s) => match distinct_nets(entries[n - 1].1@, entries[n - 1].1@.len(), s, strict) {
                Err(at) => Err(CkrError::Cidr((n - 1) as usize, at as usize)),
                Ok(t) => Ok(t),
            },
        }
    }
}

proof fn lemma_distinct_error(texts: Seq<String>, n: nat, m: nat, seen: Seq<Cidr>, strict: bool)
    requires
        n <= m,
        distinct_nets(texts, n, seen, strict) is Err,
    ensures
        distinct_nets(texts, m, seen, strict) == distinct_nets(texts, n, seen, strict),
    decreases m,
{
    if n < m {
        lemma_distinct_error(texts, n, (m - 1) as nat, seen, strict);
    }
}

proof fn lemma_system_error(entries: Seq<(String, Vec<String>)>, n: nat, m: nat, strict: bool)
    requires
        n <= m,
        system_nets(entries, n, strict) is Err,
    ensures
        system_nets(entries, m, strict) == system_nets(entries, n, strict),
    decreases m,
{
    if n < m {
        lemma_system_error(entries, n, (m - 1) as nat, strict);
    }
}

/// Whether no prefix is longer than its address.
pub open spec fn nets_wf(s: Seq<Cidr>) -> bool {
    forall|i: int| 0 <= i < s.len() ==> (#[trigger] s[i]).wf()
}

fn lists_net(s: &Vec<Cidr>, c: &Cidr) -> (r: bool)
    ensures
        r == s@.contains(*c),
{
    let mut i: usize = 0;
    while i < s.len()
        invariant
            i <= s@.len(),
            forall|j: int| 0 <= j < i ==> s@[j] != *c,
        decreases s@.len() - i,
    {
        if s[i].same(c) {
            assert(s@[i as int] == *c);
            return true;
        }
        i = i + 1;
    }
    false
}

fn collect_nets(seen: &mut Vec<Cidr>, texts: &Vec<String>, strict: bool) -> (r: Result<(), usize>)
    requires
        nets_wf(old(seen)@),
    ensures
        nets_wf(final(seen)@),
        match distinct_nets(texts@, texts@.len(), old(seen)@, strict) {
            Err(at) => r matches Err(e) && e == at,
            Ok(s) => r is Ok && final(seen)@ == s,
        },
{
    let ghost first = seen@;
    let mut i: usize = 0;
    while i < texts.len()
        invariant
            i <= texts@.len(),
            first == old(seen)@,
            nets_wf(seen@),
            distinct_nets(texts@, i as nat, first, strict) == Ok::<Seq<Cidr>, nat>(seen@),
        decreases texts@.len() - i,
    {
        match parse_cidr(texts[i].as_str()) {
            None => {
                if strict {
                    proof {
                        lemma_distinct_error(
                            texts@,
                            (i + 1) as nat,
                            texts@.len(),
                            first,
                            strict,
                        );
                    }
                    return Err(i);
                }
            },
            Some(c) => {
                if !lists_net(seen, &c) {
                    seen.push(c);
                }
            },
        }
        i = i + 1;
    }
    Ok(())
}

/// The networks for which the host gets routes into the tunnel: all that are configured, each
/// once. There are none where routing is not enabled.
pub fn routes_to_install(config: &TunnelRoutingConfig) -> (r: Result<Vec<Cidr>, CkrError>)
    ensures
        match (if config.enable {
            system_nets(config.remote_subnets@, config.remote_subnets@.len(), true)
        } else {
            Ok(Seq::empty())
        }) {
            Err(e) => r == Err::<Vec<Cidr>, CkrError>(e),
            Ok(s) => r matches Ok(v) && v@ == s && nets_wf(s),
        },
{
    let mut nets: Vec<Cidr> = Vec::new();
    if !config.enable {
        return Ok(nets);
    }
    let mut i: usize = 0;
    while i < config.remote_subnets.len()
        invariant
            i <= config.remote_subnets@.len(),
            config.enable,
            nets_wf(nets@),
            system_nets(config.remote_subnets@, i as nat, true) == Ok::<Seq<Cidr>, CkrError>(nets@),
        decreases config.remote_subnets@.len() - i,
    {
        if let Err(at) = collect_nets(&mut nets, &config.remote_subnets[i].1, true) {
            proof {
                lemma_system_error(
                    config.remote_subnets@,
                    (i + 1) as nat,
                    config.remote_subnets@.len(),
                    true,
                );
            }
            return Err(CkrError::Cidr(i, at));
        }
        i = i + 1;
    }
    Ok(nets)
}

proof fn lemma_lenient(texts: Seq<String>, n: nat, seen: Seq<Cidr>)
    ensures
        distinct_nets(texts, n, seen, false) is Ok,
    decreases n,
{
    if n > 0 {
        lemma_lenient(texts, (n - 1) as nat, seen);
    }
}

/// The networks whose routes into the tunnel are taken back: all that are configured and can be
/// read, each once.
pub fn routes_to_remove(config: &TunnelRoutingConfig) -> (r: Vec<Cidr>)
    ensures
        nets_wf(r@),
        Ok::<Seq<Cidr>, CkrError>(r@) == (if config.enable {
            system_nets(config.remote_subnets@, config.remote_subnets@.len(), false)
        } else {
            Ok(Seq::empty())
        }),
{
    let mut nets: Vec<Cidr> = Vec::new();
    if !config.enable {
        return nets;
    }
    let mut i: usize = 0;
    while i < config.remote_subnets.len()
        invariant
            i <= config.remote_subnets@.len(),
            config.enable,
            nets_wf(nets@),
            system_nets(config.remote_subnets@, i as nat, false) == Ok::<Seq<Cidr>, CkrError>(
                nets@,
            ),
        decreases config.remote_subnets@.len() - i,
    {
        proof {
            let texts = config.remote_subnets@[i as int].1@;
            lemma_lenient(texts, texts.len(), nets@);
        }
        let _ = collect_nets(&mut nets, &config.remote_subnets[i].1, false);
        i = i + 1;
    }
    nets
}

// ---------------------------------------------------------------------------
// Laws
// ---------------------------------------------------------------------------

/// The most specific route wins: the node is that of a route whose network has the address, and
/// no other route with such a network has a longer prefix. There is no node only where no route
/// has one, or the address is in the mesh.
pub proof fn lemma_longest_prefix_wins(r: Routes, addr: Ip)
    requires
        routes_wf(r),
    ensures
        match routed(r, addr) {
            Some(k) => !in_mesh(addr) && exists|i: int|
                0 <= i < family(r, addr).len() && (#[trigger] family(r, addr)[i]).destination == k
                    && in_net(family(r, addr)[i].prefix, addr) && forall|j: int|
                    0 <= j < family(r, addr).len() && in_net(
                        (#[trigger] family(r, addr)[j]).prefix,
                        addr,
                    ) ==> family(r, addr)[j].prefix.prefix_len
                        <= family(r, addr)[i].prefix.prefix_len,
            None => in_mesh(addr) || forall|j: int|
                0 <= j < family(r, addr).len() ==> !in_net(
                    (#[trigger] family(r, addr)[j]).prefix,
                    addr,
                ),
        },
{
    let s = family(r, addr);
    let p = |x: Route| in_net(x.prefix, addr);
    lemma_first_index(s, p);
    let at = first_index(s, p);
    if at < s.len() && !in_mesh(addr) {
        assert forall|j: int| 0 <= j < s.len() && in_net(
            (#[trigger] s[j]).prefix,
            addr,
        ) implies s[j].prefix.prefix_len <= s[at].prefix.prefix_len by {
            if j < at {
                assert(!p(s[j]));
            } else if j > at {
                assert(!before(s[j], s[at]));
            }
        }
        assert(s[at].destination == routed(r, addr)->0);
    } else if !in_mesh(addr) {
        assert forall|j: int| 0 <= j < s.len() implies !in_net((#[trigger] s[j]).prefix, addr) by {
            assert(!p(s[j]));
        }
    }
}

/// Whether one of the first `n` texts is the network.
pub open spec fn net_given(nets: Seq<String>, n: nat, c: Cidr) -> bool {
    exists|i: int| 0 <= i < n && cidr_of((#[trigger] nets[i])@) == Some(c)
}

/// Whether one of the first `n` entries gives the route: it has the key of the node, and the network
/// is one of its own.
pub open spec fn route_given(entries: Seq<(String, Vec<String>)>, n: nat, x: Route) -> bool {
    exists|e: int|
        0 <= e < n && entry_key((#[trigger] entries[e]).0@, e as nat) == Ok::<[u8; 32], CkrError>(
            x.destination,
        ) && net_given(entries[e].1@, entries[e].1@.len(), x.prefix)
}

/// Whether a route is in the list of its family.
pub open spec fn has_route(r: Routes, x: Route) -> bool {
    match x.prefix.addr {
        Ip::V4(_) => r.v4.contains(x),
        Ip::V6(_) => r.v6.contains(x),
    }
}

proof fn lemma_placed_has(s: Seq<Route>, r: Route, x: Route)
    ensures
        placed(s, r).contains(x) <==> x == r || s.contains(x),
{
    let p = |y: Route| before(r, y);
    let at = first_index(s, p);
    lemma_first_index(s, p);
    let t = placed(s, r);
    assert(t[at] == r);
    if s.contains(x) {
        let k = choose|k: int| 0 <= k < s.len() && s[k] == x;
        assert(t[if k < at { k } else { k + 1 }] == x);
    }
    if t.contains(x) {
        let k = choose|k: int| 0 <= k < t.len() && t[k] == x;
        if k != at {
            assert(s[if k < at { k } else { k - 1 }] == x);
        }
    }
}

proof fn lemma_nets_given(r: Routes, nets: Seq<String>, dest: [u8; 32], entry: nat, n: nat, x: Route)
    requires
        nets_added(r, nets, dest, entry, n) is Ok,
    ensures
        has_route(nets_added(r, nets, dest, entry, n)->Ok_0, x) <==> has_route(r, x) || (
        x.destination == dest && net_given(nets, n, x.prefix)),
    decreases n,
{
    if n > 0 {
        let m = (n - 1) as nat;
        let s = nets_added(r, nets, dest, entry, m)->Ok_0;
        lemma_nets_given(r, nets, dest, entry, m, x);
        let c = cidr_of(nets[m as int]@)->0;
        let route = Route { prefix: c, destination: dest };
        lemma_placed_has(s.v4, route, x);
        lemma_placed_has(s.v6, route, x);
        if net_given(nets, n, x.prefix) && !net_given(nets, m, x.prefix) {
            let i = choose|i: int| 0 <= i < n && cidr_of((#[trigger] nets[i])@) == Some(x.prefix);
            assert(i == m);
        }
        if net_given(nets, m, x.prefix) {
            let i = choose|i: int| 0 <= i < m && cidr_of((#[trigger] nets[i])@) == Some(x.prefix);
            assert(0 <= i < n && cidr_of(nets[i]@) == Some(x.prefix));
        }
    }
}

proof fn lemma_entries_given(entries: Seq<(String, Vec<String>)>, n: nat, x: Route)
    requires
        routes_of(entries, n) is Ok,
    ensures
        has_route(routes_of(entries, n)->Ok_0, x) <==> route_given(entries, n, x),
    decreases n,
{
    if n > 0 {
        let m = (n - 1) as nat;
        let r = routes_of(entries, m)->Ok_0;
        let k = entry_key(entries[m as int].0@, m)->Ok_0;
        let nets = entries[m as int].1@;
        lemma_entries_given(entries, m, x);
        lemma_nets_given(r, nets, k, m, nets.len(), x);
        if route_given(entries, n, x) && !route_given(entries, m, x) {
            let e = choose|e: int|
                0 <= e < n && entry_key((#[trigger] entries[e]).0@, e as nat) == Ok::<
                    [u8; 32],
                    CkrError,
                >(x.destination) && net_given(entries[e].1@, entries[e].1@.len(), x.prefix);
            assert(e == m);
        }
        if route_given(entries, m, x) {
            let e = choose|e: int|
                0 <= e < m && entry_key((#[trigger] entries[e]).0@, e as nat) == Ok::<
                    [u8; 32],
                    CkrError,
                >(x.destination) && net_given(entries[e].1@, entries[e].1@.len(), x.prefix);
            assert(0 <= e < n && net_given(entries[e].1@, entries[e].1@.len(), x.prefix));
        }
    }
}

/// The routes are exactly those that the configuration gives: a network is routed to a node if and
/// only if it stands under the key of that node.
pub proof fn lemma_routes_are_those_configured(cfg: TunnelRoutingConfig, x: Route)
    requires
        configured(cfg) is Ok,
    ensures
        has_route(configured(cfg)->Ok_0, x) <==> cfg.enable && route_given(
            cfg.remote_subnets@,
            cfg.remote_subnets@.len(),
            x,
        ),
{
    if cfg.enable {
        lemma_entries_given(cfg.remote_subnets@, cfg.remote_subnets@.len(), x);
    }
}

proof fn lemma_distinct_nets(texts: Seq<String>, n: nat, seen: Seq<Cidr>, strict: bool, c: Cidr)
    requires
        n <= texts.len(),
        distinct_nets(texts, n, seen, strict) is Ok,
    ensures
        distinct_nets(texts, n, seen, strict)->Ok_0.contains(c) <==> seen.contains(c) || net_given(
            texts,
            n,
            c,
        ),
        seen.no_duplicates() ==> distinct_nets(texts, n, seen, strict)->Ok_0.no_duplicates(),
        strict ==> forall|i: int| 0 <= i < n ==> cidr_of((#[trigger] texts[i])@) is Some,
    decreases n,
{
    if n > 0 {
        let m = (n - 1) as nat;
        lemma_distinct_nets(texts, m, seen, strict, c);
        let s = distinct_nets(texts, m, seen, strict)->Ok_0;
        let t = distinct_nets(texts, n, seen, strict)->Ok_0;
        if let Some(x) = cidr_of(texts[m as int]@) {
            assert(s.push(x).contains(c) <==> s.contains(c) || c == x) by {
                if s.contains(c) {
                    let k = choose|k: int| 0 <= k < s.len() && s[k] == c;
                    assert(s.push(x)[k] == c);
                }
                assert(s.push(x)[s.len() as int] == x);
                if s.push(x).contains(c) {
                    let k = choose|k: int| 0 <= k < s.len() + 1 && s.push(x)[k] == c;
                    if k < s.len() {
                        assert(s[k] == c);
                    }
                }
            }
        }
        if net_given(texts, n, c) && !net_given(texts, m, c) {
            let i = choose|i: int| 0 <= i < n && cidr_of((#[trigger] texts[i])@) == Some(c);
            assert(i == m);
        }
        if net_given(texts, m, c) {
            let i = choose|i: int| 0 <= i < m && cidr_of((#[trigger] texts[i])@) == Some(c);
            assert(0 <= i < n && cidr_of(texts[i]@) == Some(c));
        }
        if cidr_of(texts[m as int]@) == Some(c) {
            assert(net_given(texts, n, c));
        }
    }
}

/// Whether a text of one of the first `n` entries is the network.
pub open spec fn entry_gives(entries: Seq<(String, Vec<String>)>, n: nat, c: Cidr) -> bool {
    exists|e: int, i: int|
        0 <= e < n && 0 <= i < entries[e].1@.len() && cidr_of((#[trigger] entries[e].1@[i])@) == Some(
            c,
        )
}

proof fn lemma_system_nets(entries: Seq<(String, Vec<String>)>, n: nat, strict: bool, c: Cidr)
    requires
        n <= entries.len(),
        system_nets(entries, n, strict) is Ok,
    ensures
        system_nets(entries, n, strict)->Ok_0.contains(c) <==> entry_gives(entries, n, c),
        system_nets(entries, n, strict)->Ok_0.no_duplicates(),
        strict ==> forall|e: int, i: int|
            0 <= e < n && 0 <= i < entries[e].1@.len() ==> cidr_of((#[trigger] entries[e].1@[i])@) is Some,
    decreases n,
{
    if n > 0 {
        let m = (n - 1) as nat;
        lemma_system_nets(entries, m, strict, c);
        let s = system_nets(entries, m, strict)->Ok_0;
        let texts = entries[m as int].1@;
        lemma_distinct_nets(texts, texts.len(), s, strict, c);
        if entry_gives(entries, m, c) {
            let (e, i) = choose|e: int, i: int|
                0 <= e < m && 0 <= i < entries[e].1@.len() && cidr_of((#[trigger] entries[e].1@[i])@)
                    == Some(c);
            assert(0 <= e < n && cidr_of(entries[e].1@[i]@) == Some(c));
        }
        if net_given(texts, texts.len(), c) {
            let i = choose|i: int| 0 <= i < texts.len() && cidr_of((#[trigger] texts[i])@) == Some(c);
            assert(cidr_of(entries[m as int].1@[i]@) == Some(c));
        }
        if entry_gives(entries, n, c) {
            let (e, i) = choose|e: int, i: int|
                0 <= e < n && 0 <= i < entries[e].1@.len() && cidr_of((#[trigger] entries[e].1@[i])@)
                    == Some(c);
            if e == m {
                assert(cidr_of(texts[i]@) == Some(c));
            }
        }
    } else {
        assert(Seq::<Cidr>::empty().no_duplicates());
    }
}

/// The host gets a route for exactly the networks that some entry names, whichever it is, and for
/// each of them one. Every text is then a network. Those that are taken back are exactly the
/// networks that are named, each once, whatever else the texts are.
pub proof fn lemma_host_routes_are_the_networks(entries: Seq<(String, Vec<String>)>, c: Cidr)
    ensures
        system_nets(entries, entries.len(), true) matches Ok(s) ==> {
            &&& s.contains(c) <==> exists|e: int, i: int|
                0 <= e < entries.len() && 0 <= i < entries[e].1@.len() && cidr_of(
                    (#[trigger] entries[e].1@[i])@,
                ) == Some(c)
            &&& s.no_duplicates()
            &&& forall|e: int, i: int|
                0 <= e < entries.len() && 0 <= i < entries[e].1@.len() ==> cidr_of(
                    (#[trigger] entries[e].1@[i])@,
                ) is Some
        },
        system_nets(entries, entries.len(), false) matches Ok(s) && (s.contains(c) <==> exists|
            e: int,
            i: int,
        |
            0 <= e < entries.len() && 0 <= i < entries[e].1@.len() && cidr_of(
                (#[trigger] entries[e].1@[i])@,
            ) == Some(c)) && s.no_duplicates(),
{
    if system_nets(entries, entries.len(), true) is Ok {
        lemma_system_nets(entries, entries.len(), true, c);
    }
    lemma_system_lenient(entries, entries.len());
    lemma_system_nets(entries, entries.len(), false, c);
}

proof fn lemma_system_lenient(entries: Seq<(String, Vec<String>)>, n: nat)
    ensures
        system_nets(entries, n, false) is Ok,
    decreases n,
{
    if n > 0 {
        lemma_system_lenient(entries, (n - 1) as nat);
        let s = system_nets(entries, (n - 1) as nat, false)->Ok_0;
        lemma_lenient(entries[n - 1].1@, entries[n - 1].1@.len(), s);
    }
}

proof fn lemma_distinct_error_at(texts: Seq<String>, n: nat, seen: Seq<Cidr>)
    requires
        n <= texts.len(),
        distinct_nets(texts, n, seen, true) is Err,
    ensures
        distinct_nets(texts, n, seen, true)->Err_0 < n,
        cidr_of(texts[distinct_nets(texts, n, seen, true)->Err_0 as int]@) is None,
        forall|i: int|
            0 <= i < distinct_nets(texts, n, seen, true)->Err_0 ==> cidr_of((#[trigger] texts[i])@) is Some,
    decreases n,
{
    let m = (n - 1) as nat;
    if distinct_nets(texts, m, seen, true) is Err {
        lemma_distinct_error_at(texts, m, seen);
    } else {
        lemma_distinct_nets(texts, m, seen, true, arbitrary());
    }
}

/// Routes of the host are refused exactly where some text is no network, and the first such text is
/// told.
pub proof fn lemma_first_bad_network_is_told(entries: Seq<(String, Vec<String>)>, n: nat)
    requires
        n <= entries.len() <= usize::MAX,
        forall|e: int| 0 <= e < entries.len() ==> (#[trigger] entries[e]).1@.len() <= usize::MAX,
        system_nets(entries, n, true) is Err,
    ensures
        exists|e: int, i: int|
            0 <= e < n && 0 <= i < entries[e].1@.len() && cidr_of((#[trigger] entries[e].1@[i])@) is None
                && system_nets(entries, n, true) == Err::<Seq<Cidr>, CkrError>(
                CkrError::Cidr(e as usize, i as usize),
            ) && (forall|j: int|
                0 <= j < i ==> cidr_of((#[trigger] entries[e].1@[j])@) is Some) && forall|
                d: int,
                j: int,
            |
                0 <= d < e && 0 <= j < entries[d].1@.len() ==> cidr_of(
                    (#[trigger] entries[d].1@[j])@,
                ) is Some,
    decreases n,
{
    let m = (n - 1) as nat;
    if system_nets(entries, m, true) is Err {
        lemma_first_bad_network_is_told(entries, m);
        let (e, i) = choose|e: int, i: int|
            0 <= e < m && 0 <= i < entries[e].1@.len() && cidr_of((#[trigger] entries[e].1@[i])@) is None
                && system_nets(entries, m, true) == Err::<Seq<Cidr>, CkrError>(
                CkrError::Cidr(e as usize, i as usize),
            ) && (forall|j: int|
                0 <= j < i ==> cidr_of((#[trigger] entries[e].1@[j])@) is Some) && forall|
                d: int,
                j: int,
            |
                0 <= d < e && 0 <= j < entries[d].1@.len() ==> cidr_of(
                    (#[trigger] entries[d].1@[j])@,
                ) is Some;
        assert(0 <= e < n && cidr_of(entries[e].1@[i]@) is None);
    } else {
        let s = system_nets(entries, m, true)->Ok_0;
        let texts = entries[m as int].1@;
        lemma_system_nets(entries, m, true, arbitrary());
        lemma_distinct_error_at(texts, texts.len(), s);
        let at = distinct_nets(texts, texts.len(), s, true)->Err_0 as int;
        assert(cidr_of(entries[m as int].1@[at]@) is None);
        assert forall|j: int| 0 <= j < at implies cidr_of((#[trigger] entries[m as int].1@[j])@) is Some by {
            assert(cidr_of(texts[j]@) is Some);
        }
    }
}

/// Whether a text gives a network before the place `(e, i)`.
pub open spec fn given_before(entries: Seq<(String, Vec<String>)>, e: int, i: int, c: Cidr) -> bool {
    exists|d: int, j: int|
        0 <= d < entries.len() && 0 <= j < entries[d].1@.len() && (d < e || (d == e && j < i))
            && cidr_of((#[trigger] entries[d].1@[j])@) == Some(c)
}

/// Whether a configuration is at fault in the way that is told.
pub open spec fn at_fault(entries: Seq<(String, Vec<String>)>, err: CkrError) -> bool {
    match err {
        CkrError::KeyHex(e) => e < entries.len() && !is_hex(entries[e as int].0@),
        CkrError::KeyLength(e) => e < entries.len() && is_hex(entries[e as int].0@) && key_of_hex(
            entries[e as int].0@,
        ) is None,
        CkrError::Cidr(e, i) => e < entries.len() && i < entries[e as int].1@.len() && cidr_of(
            entries[e as int].1@[i as int]@,
        ) is None,
        CkrError::MeshSubnet(e, i) => e < entries.len() && i < entries[e as int].1@.len() && (cidr_of(
            entries[e as int].1@[i as int]@,
        ) matches Some(c) && in_mesh(c.addr)),
        CkrError::Duplicate(e, i) => e < entries.len() && i < entries[e as int].1@.len() && (cidr_of(
            entries[e as int].1@[i as int]@,
        ) matches Some(c) && given_before(entries, e as int, i as int, c)),
    }
}

proof fn lemma_nets_fault(
    entries: Seq<(String, Vec<String>)>,
    r: Routes,
    k: [u8; 32],
    e: nat,
    n: nat,
)
    requires
        e < entries.len() <= usize::MAX,
        n <= entries[e as int].1@.len() <= usize::MAX,
        routes_of(entries, e) == Ok::<Routes, CkrError>(r),
    ensures
        match nets_added(r, entries[e as int].1@, k, e, n) {
            Err(err) => at_fault(entries, err),
            Ok(_) => forall|i: int|
                0 <= i < n ==> {
                    let c = cidr_of((#[trigger] entries[e as int].1@[i])@);
                    &&& c is Some
                    &&& !in_mesh(c->0.addr)
                    &&& !given_before(entries, e as int, i, c->0)
                },
        },
    decreases n,
{
    if n > 0 {
        let m = (n - 1) as nat;
        let nets = entries[e as int].1@;
        lemma_nets_fault(entries, r, k, e, m);
        if let Ok(s) = nets_added(r, nets, k, e, m) {
            if let Some(c) = cidr_of(nets[m as int]@) {
                let family = match c.addr {
                    Ip::V4(_) => s.v4,
                    Ip::V6(_) => s.v6,
                };
                if has_net(family, c) {
                    let at = choose|at: int| 0 <= at < family.len() && (#[trigger] family[at]).prefix == c;
                    let x = family[at];
                    assert(family.contains(x));
                    assert(has_route(s, x));
                    lemma_nets_given(r, nets, k, e, m, x);
                    lemma_entries_given(entries, e, x);
                    if has_route(r, x) {
                        let d = choose|d: int|
                            0 <= d < e && entry_key((#[trigger] entries[d]).0@, d as nat) == Ok::<
                                [u8; 32],
                                CkrError,
                            >(x.destination) && net_given(entries[d].1@, entries[d].1@.len(), x.prefix);
                        let j = choose|j: int|
                            0 <= j < entries[d].1@.len() && cidr_of((#[trigger] entries[d].1@[j])@)
                                == Some(c);
                        assert(given_before(entries, e as int, m as int, c));
                    } else {
                        let j = choose|j: int| 0 <= j < m && cidr_of((#[trigger] nets[j])@) == Some(c);
                        assert(cidr_of(entries[e as int].1@[j]@) == Some(c));
                        assert(given_before(entries, e as int, m as int, c));
                    }
                } else if given_before(entries, e as int, m as int, c) {
                    let (d, j) = choose|d: int, j: int|
                        0 <= d < entries.len() && 0 <= j < entries[d].1@.len() && (d < e || (d == e
                            && j < m)) && cidr_of((#[trigger] entries[d].1@[j])@) == Some(c);
                    if d < e {
                        lemma_keys_good(entries, e, d);
                        let key = entry_key(entries[d].0@, d as nat)->Ok_0;
                        let x = Route { prefix: c, destination: key };
                        assert(net_given(entries[d].1@, entries[d].1@.len(), c));
                        assert(route_given(entries, e, x));
                        lemma_entries_given(entries, e, x);
                        lemma_nets_given(r, nets, k, e, m, x);
                        let at = choose|at: int| 0 <= at < family.len() && family[at] == x;
                        assert(family[at].prefix == c);
                    } else {
                        let x = Route { prefix: c, destination: k };
                        assert(cidr_of(nets[j]@) == Some(c));
                        assert(net_given(nets, m, c));
                        lemma_nets_given(r, nets, k, e, m, x);
                        let at = choose|at: int| 0 <= at < family.len() && family[at] == x;
                        assert(family[at].prefix == c);
                    }
                }
            }
        }
    }
}

proof fn lemma_keys_good(entries: Seq<(String, Vec<String>)>, n: nat, e: int)
    requires
        routes_of(entries, n) is Ok,
        0 <= e < n,
    ensures
        entry_key(entries[e].0@, e as nat) is Ok,
    decreases n,
{
    if e < n - 1 {
        lemma_keys_good(entries, (n - 1) as nat, e);
    }
}

proof fn lemma_entries_fault(entries: Seq<(String, Vec<String>)>, n: nat)
    requires
        n <= entries.len() <= usize::MAX,
        forall|e: int| 0 <= e < entries.len() ==> (#[trigger] entries[e]).1@.len() <= usize::MAX,
    ensures
        match routes_of(entries, n) {
            Err(err) => at_fault(entries, err),
            Ok(_) => forall|e: int, i: int|
                0 <= e < n && 0 <= i < entries[e].1@.len() ==> {
                    let c = cidr_of((#[trigger] entries[e].1@[i])@);
                    &&& c is Some
                    &&& !in_mesh(c->0.addr)
                    &&& !given_before(entries, e, i, c->0)
                },
        },
    decreases n,
{
    if n > 0 {
        let m = (n - 1) as nat;
        lemma_entries_fault(entries, m);
        if let Ok(r) = routes_of(entries, m) {
            if let Ok(k) = entry_key(entries[m as int].0@, m) {
                assert(entries[m as int].1@.len() <= usize::MAX);
                lemma_nets_fault(entries, r, k, m, entries[m as int].1@.len());
            }
        }
    }
}

/// A configuration is refused only for a fault that it has, and the fault is told with its place.
/// One that is taken has none: every key has thirty-two bytes in hexadecimal, every text is a
/// network outside the mesh, and no network is given twice.
pub proof fn lemma_refused_for_a_fault(cfg: TunnelRoutingConfig)
    requires
        cfg.remote_subnets@.len() <= usize::MAX,
        forall|e: int|
            0 <= e < cfg.remote_subnets@.len() ==> (#[trigger] cfg.remote_subnets@[e]).1@.len()
                <= usize::MAX,
        cfg.enable,
    ensures
        ({
            let entries = cfg.remote_subnets@;
            match configured(cfg) {
                Err(err) => at_fault(entries, err),
                Ok(_) => {
                    &&& forall|e: int|
                        0 <= e < entries.len() ==> is_hex((#[trigger] entries[e]).0@) && key_of_hex(
                            entries[e].0@,
                        ) is Some
                    &&& forall|e: int, i: int|
                        0 <= e < entries.len() && 0 <= i < entries[e].1@.len() ==> {
                            let c = cidr_of((#[trigger] entries[e].1@[i])@);
                            &&& c is Some
                            &&& !in_mesh(c->0.addr)
                            &&& !given_before(entries, e, i, c->0)
                        }
                },
            }
        }),
{
    let entries = cfg.remote_subnets@;
    lemma_entries_fault(entries, entries.len());
    if configured(cfg) is Ok {
        assert forall|e: int| 0 <= e < entries.len() implies is_hex((#[trigger] entries[e]).0@)
            && key_of_hex(entries[e].0@) is Some by {
            lemma_keys_good(entries, entries.len(), e);
        }
    }
}

/// Where the fault that is told is: the number of the entry, and that of the network in it, if it is
/// a network.
pub open spec fn fault_place(err: CkrError) -> (int, int) {
    match err {
        CkrError::KeyHex(e) => (e as int, 0),
        CkrError::KeyLength(e) => (e as int, 0),
        CkrError::Cidr(e, i) => (e as int, i as int),
        CkrError::MeshSubnet(e, i) => (e as int, i as int),
        CkrError::Duplicate(e, i) => (e as int, i as int),
    }
}

/// Of several faults the first one is told: the keys of all entries before it, and all networks
/// before it, are good.
pub proof fn lemma_first_fault_is_told(cfg: TunnelRoutingConfig)
    requires
        cfg.remote_subnets@.len() <= usize::MAX,
        forall|e: int|
            0 <= e < cfg.remote_subnets@.len() ==> (#[trigger] cfg.remote_subnets@[e]).1@.len()
                <= usize::MAX,
        configured(cfg) is Err,
    ensures
        ({
            let entries = cfg.remote_subnets@;
            let (at, k) = fault_place(configured(cfg)->Err_0);
            &&& 0 <= at < entries.len()
            &&& forall|e: int|
                0 <= e < at ==> is_hex((#[trigger] entries[e]).0@) && key_of_hex(
                    entries[e].0@,
                ) is Some
            &&& forall|e: int, i: int|
                0 <= e <= at && 0 <= i < entries[e].1@.len() && (e < at || i < k) ==> {
                    let c = cidr_of((#[trigger] entries[e].1@[i])@);
                    &&& c is Some
                    &&& !in_mesh(c->0.addr)
                    &&& !given_before(entries, e, i, c->0)
                }
        }),
{
    let entries = cfg.remote_subnets@;
    lemma_good_before_the_fault(entries, entries.len());
}

proof fn lemma_nets_stop(
    r: Routes,
    nets: Seq<String>,
    k: [u8; 32],
    e: nat,
    n: nat,
)
    requires
        e <= usize::MAX,
        n <= nets.len() <= usize::MAX,
        nets_added(r, nets, k, e, n) is Err,
    ensures
        ({
            let (at, i) = fault_place(nets_added(r, nets, k, e, n)->Err_0);
            &&& at == e
            &&& 0 <= i < n
            &&& nets_added(r, nets, k, e, i as nat) is Ok
        }),
    decreases n,
{
    if n > 0 {
        if nets_added(r, nets, k, e, (n - 1) as nat) is Err {
            lemma_nets_stop(r, nets, k, e, (n - 1) as nat);
        }
    }
}

proof fn lemma_good_before_the_fault(entries: Seq<(String, Vec<String>)>, n: nat)
    requires
        n <= entries.len() <= usize::MAX,
        forall|e: int| 0 <= e < entries.len() ==> (#[trigger] entries[e]).1@.len() <= usize::MAX,
        routes_of(entries, n) is Err,
    ensures
        ({
            let (at, k) = fault_place(routes_of(entries, n)->Err_0);
            &&& 0 <= at < n
            &&& forall|e: int|
                0 <= e < at ==> is_hex((#[trigger] entries[e]).0@) && key_of_hex(
                    entries[e].0@,
                ) is Some
            &&& forall|e: int, i: int|
                0 <= e <= at && 0 <= i < entries[e].1@.len() && (e < at || i < k) ==> {
                    let c = cidr_of((#[trigger] entries[e].1@[i])@);
                    &&& c is Some
                    &&& !in_mesh(c->0.addr)
                    &&& !given_before(entries, e, i, c->0)
                }
        }),
    decreases n,
{
    let m = (n - 1) as nat;
    if routes_of(entries, m) is Err {
        lemma_good_before_the_fault(entries, m);
    } else {
        let r = routes_of(entries, m)->Ok_0;
        lemma_entries_fault(entries, m);
        assert forall|e: int| 0 <= e < m implies is_hex((#[trigger] entries[e]).0@) && key_of_hex(
            entries[e].0@,
        ) is Some by {
            lemma_keys_good(entries, m, e);
        }
        if let Ok(key) = entry_key(entries[m as int].0@, m) {
            let nets = entries[m as int].1@;
            assert(nets.len() <= usize::MAX);
            lemma_nets_stop(r, nets, key, m, nets.len());
            let k = fault_place(routes_of(entries, n)->Err_0).1;
            lemma_nets_fault(entries, r, key, m, k as nat);
        }
    }
}

} // verus!
