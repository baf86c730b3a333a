//! Finding neighbours on the network interfaces of the host.
use vstd::prelude::*;
use vstd::string::StringExecFns;
use crate::bytes::{
    append, append_be, be_bytes, be_value, bytes_eq, key_eq, lemma_be_len, lemma_be_round_trip,
    lemma_pow256_values, read_be, take_array, to_vec, PublicKey,
};
use crate::config::MulticastInterfaceConfig;
use crate::hashes::{blake2b_hash, password_hash, MAX_PASSWORD_LEN};
use crate::seqs::{first_index, lemma_first_index, lemma_first_index_at};
use crate::texts::{comes_first, fits, glob_match, lemma_text_order, text_less};
use crate::traffic::elapsed;
use crate::uris::utf8;
use crate::version::{PROTOCOL_VERSION_MAJOR, PROTOCOL_VERSION_MINOR};
use crate::wire::{array_of, lemma_array_of};

verus! {

/// The port on which nodes make themselves known.
pub const MULTICAST_PORT: u16 = 9001;

/// The longest time between two advertisements, in seconds.
pub const BEACON_MAX_INTERVAL: u64 = 15;

// ---------------------------------------------------------------------------
// Advertisements
// ---------------------------------------------------------------------------

/// What a node makes known of itself.
#[derive(Debug)]
pub struct Advertisement {
    pub major_version: u16,
    pub minor_version: u16,
    pub public_key: PublicKey,
    pub port: u16,
    pub hash: Vec<u8>,
}

/// The view of an advertisement.
#[verifier::ext_equal]
pub struct AdView {
    pub major_version: u16,
    pub minor_version: u16,
    pub public_key: PublicKey,
    pub port: u16,
    pub hash: Seq<u8>,
}

impl View for Advertisement {
    type V = AdView;

    open spec fn view(&self) -> AdView {
        AdView {
            major_version: self.major_version,
            minor_version: self.minor_version,
            public_key: self.public_key,
            port: self.port,
            hash: self.hash@,
        }
    }
}

/// What is wrong with an advertisement.
#[derive(Clone, Copy, Debug, PartialEq, Eq, Structural)]
pub enum AdError {
    TooShort,
    HashTruncated,
}

/// The bytes of an advertisement.
pub open spec fn ad_bytes(a: AdView) -> Seq<u8> {
    be_bytes(a.major_version as nat, 2) + be_bytes(a.minor_version as nat, 2) + a.public_key@
        + be_bytes(a.port as nat, 2) + be_bytes(a.hash.len(), 2) + a.hash
}

/// The advertisement in front of `s`.
pub open spec fn parse_ad(s: Seq<u8>) -> Result<AdView, AdError> {
    if s.len() < 40 {
        Err(AdError::TooShort)
    } else {
        let n = be_value(s.subrange(38, 40));
        if s.len() < 40 + n {
            Err(AdError::HashTruncated)
        } else {
            Ok(
                AdView {
                    major_version: be_value(s.subrange(0, 2)) as u16,
                    minor_version: be_value(s.subrange(2, 4)) as u16,
                    public_key: array_of::<32>(s.subrange(4, 36)),
                    port: be_value(s.subrange(36, 38)) as u16,
                    hash: s.subrange(40, (40 + n) as int),
                },
            )
        }
    }
}

/// Reading gives back the advertisement that was written, whatever follows it.
pub proof fn lemma_ad_round_trip(a: AdView, rest: Seq<u8>)
    requires
        a.hash.len() < 0x1_0000,
    ensures
        parse_ad(ad_bytes(a) + rest) == Ok::<AdView, AdError>(a),
{
    let s = ad_bytes(a) + rest;
    lemma_pow256_values();
    lemma_be_len(a.major_version as nat, 2);
    lemma_be_len(a.minor_version as nat, 2);
    lemma_be_len(a.port as nat, 2);
    lemma_be_len(a.hash.len(), 2);
    lemma_be_round_trip(a.major_version as nat, 2);
    lemma_be_round_trip(a.minor_version as nat, 2);
    lemma_be_round_trip(a.port as nat, 2);
    lemma_be_round_trip(a.hash.len(), 2);
    lemma_array_of(a.public_key);
    assert(s.subrange(0, 2) =~= be_bytes(a.major_version as nat, 2));
    assert(s.subrange(2, 4) =~= be_bytes(a.minor_version as nat, 2));
    assert(s.subrange(4, 36) =~= a.public_key@);
    assert(s.subrange(36, 38) =~= be_bytes(a.port as nat, 2));
    assert(s.subrange(38, 40) =~= be_bytes(a.hash.len(), 2));
    assert(s.subrange(40, 40 + a.hash.len() as int) =~= a.hash);
}

impl Advertisement {
    /// The bytes of the advertisement. Of the length of the hash the lowest two bytes are written.
    pub fn encode(&self) -> (r: Vec<u8>)
        ensures
            r@ == ad_bytes(self@),
    {
        let mut out: Vec<u8> = Vec::new();
        append_be(&mut out, self.major_version as u64, 2);
        append_be(&mut out, self.minor_version as u64, 2);
        append(&mut out, self.public_key.as_slice());
        append_be(&mut out, self.port as u64, 2);
        append_be(&mut out, self.hash.len() as u64, 2);
        append(&mut out, self.hash.as_slice());
        assert(out@ =~= ad_bytes(self@));
        out
    }

    /// The advertisement in front of data.
    pub fn decode(data: &[u8]) -> (r: Result<Self, AdError>)
        ensures
            match r {
                Ok(a) => parse_ad(data@) == Ok::<AdView, AdError>(a@),
                Err(e) => parse_ad(data@) == Err::<AdView, AdError>(e),
            },
    {
        if data.len() < 40 {
            return Err(AdError::TooShort);
        }
        proof {
            lemma_pow256_values();
        }
        let major: u64 = read_be(data, 0, 2);
        let minor: u64 = read_be(data, 2, 2);
        let public_key = take_array::<32>(data, 4);
        let port: u64 = read_be(data, 36, 2);
        let hash_len: u64 = read_be(data, 38, 2);
        if ((data.len() - 40) as u64) < hash_len {
            return Err(AdError::HashTruncated);
        }
        let hash = to_vec(vstd::slice::slice_subrange(data, 40, 40 + hash_len as usize));
        proof {
            lemma_array_of(public_key);
            assert(public_key@ =~= data@.subrange(4, 36));
        }
        Ok(
            Advertisement {
                major_version: major as u16,
                minor_version: minor as u16,
                public_key,
                port: port as u16,
                hash,
            },
        )
    }
}

/// The proof that the owner of a key knows the password: the hash of the key under it.
pub fn compute_auth_hash(public_key: &PublicKey, password: &[u8]) -> (r: Vec<u8>)
    requires
        password@.len() <= MAX_PASSWORD_LEN,
    ensures
        r@ == password_hash(public_key@, password@),
        r@.len() == 64,
{
    let h = blake2b_hash(public_key.as_slice(), password);
    let r = to_vec(h.as_slice());
    assert(r@ =~= h@);
    r
}

// ---------------------------------------------------------------------------
// Interfaces of the host
// ---------------------------------------------------------------------------

/// An address of an interface of the host.
#[derive(Debug)]
pub struct RawInterface {
    pub name: String,
    pub index: u32,
    pub up: bool,
    pub running: bool,
    pub multicast: bool,
    pub point_to_point: bool,
    pub loopback: bool,
    /// The address, where it is an IPv6 address.
    pub addr: Option<[u8; 16]>,
}

/// The view of such an address.
#[verifier::ext_equal]
pub struct RawView {
    pub name: Seq<char>,
    pub index: u32,
    pub up: bool,
    pub running: bool,
    pub multicast: bool,
    pub point_to_point: bool,
    pub loopback: bool,
    pub addr: Option<[u8; 16]>,
}

impl View for RawInterface {
    type V = RawView;

    open spec fn view(&self) -> RawView {
        RawView {
            name: self.name@,
            index: self.index,
            up: self.up,
            running: self.running,
            multicast: self.multicast,
            point_to_point: self.point_to_point,
            loopback: self.loopback,
            addr: self.addr,
        }
    }
}

/// The views of addresses.
pub open spec fn raw_views(v: Seq<RawInterface>) -> Seq<RawView> {
    v.map_values(|r: RawInterface| r@)
}

/// Whether an address is link-local: its first ten bits are those of `fe80`.
pub open spec fn link_local(a: [u8; 16]) -> bool {
    a@[0] == 0xfe && 0x80 <= a@[1] < 0xc0
}

/// The address through which neighbours can be found, if it is one.
pub open spec fn usable(r: RawView) -> Option<[u8; 16]> {
    match r.addr {
        Some(a) => if r.up && r.running && r.multicast && !r.point_to_point && !r.loopback
            && link_local(a) {
            Some(a)
        } else {
            None
        },
        None => None,
    }
}

/// An interface with the addresses through which neighbours can be found.
pub struct IfInfo {
    pub name: String,
    pub index: u32,
    pub addrs: Vec<[u8; 16]>,
}

/// The view of an interface.
#[verifier::ext_equal]
pub struct IfView {
    pub name: Seq<char>,
    pub index: u32,
    pub addrs: Seq<[u8; 16]>,
}

impl View for IfInfo {
    type V = IfView;

    open spec fn view(&self) -> IfView {
        IfView { name: self.name@, index: self.index, addrs: self.addrs@ }
    }
}

/// The views of interfaces.
pub open spec fn if_views(v: Seq<IfInfo>) -> Seq<IfView> {
    v.map_values(|i: IfInfo| i@)
}

/// The property of having a name.
pub open spec fn if_named(name: Seq<char>) -> spec_fn(IfView) -> bool {
    |i: IfView| i.name == name
}

/// The interfaces that usable addresses belong to, in the order in which they come first.
pub open spec fn grouped(raw: Seq<RawView>) -> Seq<IfView>
    decreases raw.len(),
{
    if raw.len() == 0 {
        Seq::empty()
    } else {
        let rest = grouped(raw.drop_last());
        let last = raw.last();
        match usable(last) {
            None => rest,
            Some(a) => {
                let at = first_index(rest, if_named(last.name));
                if at < rest.len() {
                    rest.update(at, IfView { addrs: rest[at].addrs.push(a), ..rest[at] })
                } else {
                    rest.push(IfView { name: last.name, index: last.index, addrs: seq![a] })
                }
            },
        }
    }
}

/// Every interface occurs once, and has an address.
pub proof fn lemma_grouped_distinct(raw: Seq<RawView>)
    ensures
        forall|i: int, j: int|
            0 <= i < j < grouped(raw).len() ==> (#[trigger] grouped(raw)[i]).name != (
            #[trigger] grouped(raw)[j]).name,
        forall|i: int|
            0 <= i < grouped(raw).len() ==> (#[trigger] grouped(raw)[i]).addrs.len() > 0,
    decreases raw.len(),
{
    if raw.len() > 0 {
        lemma_grouped_distinct(raw.drop_last());
        let rest = grouped(raw.drop_last());
        let last = raw.last();
        lemma_first_index(rest, if_named(last.name));
        let at = first_index(rest, if_named(last.name));
        let now = grouped(raw);
        assert forall|i: int, j: int| 0 <= i < j < now.len() implies (#[trigger] now[i]).name != (
        #[trigger] now[j]).name by {
            assert(rest[i].name == now[i].name);
            if j < rest.len() {
                assert(rest[j].name == now[j].name);
            } else {
                assert(!if_named(last.name)(rest[i]));
            }
        }
        assert forall|i: int| 0 <= i < now.len() implies (#[trigger] now[i]).addrs.len() > 0 by {
            if i < rest.len() {
                assert(rest[i].addrs.len() > 0);
            }
        }
    }
}

fn usable_addr(r: &RawInterface) -> (a: Option<[u8; 16]>)
    ensures
        a == usable(r@),
{
    match r.addr {
        None => None,
        Some(a) => {
            if r.up && r.running && r.multicast && !r.point_to_point && !r.loopback && a[0] == 0xfe
                && 0x80 <= a[1] && a[1] < 0xc0 {
                Some(a)
            } else {
                None
            }
        },
    }
}

/// The interfaces that usable addresses belong to.
pub fn group_interfaces(raw: &Vec<RawInterface>) -> (r: Vec<IfInfo>)
    ensures
        if_views(r@) == grouped(raw_views(raw@)),
{
    let mut r: Vec<IfInfo> = Vec::new();
    let ghost all = raw_views(raw@);
    let mut i: usize = 0;
    assert(all.take(0) =~= Seq::empty());
    assert(if_views(r@) =~= Seq::empty());
    while i < raw.len()
        invariant
            i <= raw@.len(),
            all == raw_views(raw@),
            if_views(r@) == grouped(all.take(i as int)),
        decreases raw@.len() - i,
    {
        proof {
            assert(all.take(i + 1).drop_last() =~= all.take(i as int));
            assert(all.take(i + 1).last() == raw@[i as int]@);
        }
        let ghost rest = if_views(r@);
        if let Some(a) = usable_addr(&raw[i]) {
            let ghost name = raw@[i as int].name@;
            let mut at: usize = 0;
            while at < r.len() && !(r[at].name == raw[i].name)
                invariant
                    at <= r@.len(),
                    i < raw@.len(),
                    name == raw@[i as int].name@,
                    rest == if_views(r@),
                    forall|j: int| 0 <= j < at ==> !if_named(name)(#[trigger] rest[j]),
                decreases r@.len() - at,
            {
                assert(rest[at as int].name == r@[at as int].name@);
                at = at + 1;
            }
            proof {
                if at < r@.len() {
                    assert(rest[at as int].name == r@[at as int].name@);
                }
                lemma_first_index_at(rest, if_named(name), at as int);
            }
            if at < r.len() {
                r[at].addrs.push(a);
                assert(if_views(r@) =~= rest.update(
                    at as int,
                    IfView { addrs: rest[at as int].addrs.push(a), ..rest[at as int] },
                ));
            } else {
                let mut addrs: Vec<[u8; 16]> = Vec::new();
                addrs.push(a);
                assert(addrs@ =~= seq![a]);
                r.push(IfInfo { name: raw[i].name.clone(), index: raw[i].index, addrs });
                assert(if_views(r@) =~= rest.push(
                    IfView { name, index: raw@[i as int].index, addrs: seq![a] },
                ));
            }
        }
        i = i + 1;
    }
    assert(all.take(i as int) =~= all);
    r
}

// ---------------------------------------------------------------------------
// Interfaces in use
// ---------------------------------------------------------------------------

/// An interface on which neighbours are looked for.
pub struct InterfaceState {
    pub name: String,
    pub index: u32,
    pub addrs: Vec<[u8; 16]>,
    pub beacon: bool,
    pub listen: bool,
    pub port: u16,
    pub priority: u8,
    pub password: Vec<u8>,
    pub hash: Vec<u8>,
    /// How many seconds pass before the next advertisement.
    pub beacon_interval: u64,
    /// When the last advertisement was sent, if one was.
    pub last_beacon: Option<u64>,
}

/// The view of such an interface.
#[verifier::ext_equal]
pub struct StateView {
    pub name: Seq<char>,
    pub index: u32,
    pub addrs: Seq<[u8; 16]>,
    pub beacon: bool,
    pub listen: bool,
    pub port: u16,
    pub priority: u8,
    pub password: Seq<u8>,
    pub hash: Seq<u8>,
    pub beacon_interval: u64,
    pub last_beacon: Option<u64>,
}

impl View for InterfaceState {
    type V = StateView;

    open spec fn view(&self) -> StateView {
        StateView {
            name: self.name@,
            index: self.index,
            addrs: self.addrs@,
            beacon: self.beacon,
            listen: self.listen,
            port: self.port,
            priority: self.priority,
            password: self.password@,
            hash: self.hash@,
            beacon_interval: self.beacon_interval,
            last_beacon: self.last_beacon,
        }
    }
}

/// The views of interfaces in use.
pub open spec fn state_views(v: Seq<InterfaceState>) -> Seq<StateView> {
    v.map_values(|s: InterfaceState| s@)
}

/// Whether a configuration speaks of an interface. One that neither makes us known nor looks for
/// others speaks of none.
pub open spec fn speaks_of(name: Seq<char>) -> spec_fn(MulticastInterfaceConfig) -> bool {
    |c: MulticastInterfaceConfig| (c.beacon || c.listen) && fits(c.filter@, name)
}

/// Every password can key a hash.
pub open spec fn configs_wf(c: Seq<MulticastInterfaceConfig>) -> bool {
    forall|i: int| 0 <= i < c.len() ==> utf8((#[trigger] c[i]).password@).len() <= MAX_PASSWORD_LEN
}

/// An interface under a configuration.
pub open spec fn state_new(i: IfView, c: MulticastInterfaceConfig, key: PublicKey) -> StateView {
    StateView {
        name: i.name,
        index: i.index,
        addrs: i.addrs,
        beacon: c.beacon,
        listen: c.listen,
        port: c.port,
        priority: c.priority,
        password: utf8(c.password@),
        hash: password_hash(key@, utf8(c.password@)),
        beacon_interval: 1,
        last_beacon: None,
    }
}

/// The interfaces of which a configuration speaks, each under the first one that does.
pub open spec fn configured(
    ifs: Seq<IfView>,
    configs: Seq<MulticastInterfaceConfig>,
    key: PublicKey,
) -> Seq<StateView>
    decreases ifs.len(),
{
    if ifs.len() == 0 {
        Seq::empty()
    } else {
        let rest = configured(ifs.drop_last(), configs, key);
        let at = first_index(configs, speaks_of(ifs.last().name));
        if at < configs.len() {
            rest.push(state_new(ifs.last(), configs[at], key))
        } else {
            rest
        }
    }
}

/// Whether discovery is wanted at all.
pub fn any_enabled(configs: &Vec<MulticastInterfaceConfig>) -> (r: bool)
    ensures
        r == exists|i: int|
            0 <= i < configs@.len() && ((#[trigger] configs@[i]).beacon || configs@[i].listen),
{
    let mut i: usize = 0;
    while i < configs.len()
        invariant
            i <= configs@.len(),
            forall|j: int|
                0 <= j < i ==> !((#[trigger] configs@[j]).beacon || configs@[j].listen),
        decreases configs@.len() - i,
    {
        if configs[i].beacon || configs[i].listen {
            assert(configs@[i as int].beacon || configs@[i as int].listen);
            return true;
        }
        i = i + 1;
    }
    false
}

fn copy_addrs(v: &Vec<[u8; 16]>) -> (r: Vec<[u8; 16]>)
    ensures
        r@ == v@,
{
    let mut r: Vec<[u8; 16]> = Vec::new();
    let mut i: usize = 0;
    while i < v.len()
        invariant
            i <= v@.len(),
            r@ == v@.take(i as int),
        decreases v@.len() - i,
    {
        r.push(v[i]);
        i = i + 1;
        assert(r@ =~= v@.take(i as int));
    }
    assert(r@ =~= v@);
    r
}

/// The interfaces of the host on which neighbours are looked for.
pub fn discover_interfaces(
    raw: &Vec<RawInterface>,
    configs: &Vec<MulticastInterfaceConfig>,
    key: &PublicKey,
) -> (r: Vec<InterfaceState>)
    requires
        configs_wf(configs@),
    ensures
        state_views(r@) == configured(grouped(raw_views(raw@)), configs@, *key),
        forall|i: int| 0 <= i < r@.len() ==> state_wf((#[trigger] r@[i])@),
{
    let ifs = group_interfaces(raw);
    let ghost all = if_views(ifs@);
    let mut r: Vec<InterfaceState> = Vec::new();
    let mut i: usize = 0;
    assert(all.take(0) =~= Seq::empty());
    assert(state_views(r@) =~= Seq::empty());
    while i < ifs.len()
        invariant
            i <= ifs@.len(),
            all == if_views(ifs@),
            configs_wf(configs@),
            state_views(r@) == configured(all.take(i as int), configs@, *key),
            forall|j: int| 0 <= j < r@.len() ==> state_wf((#[trigger] r@[j])@),
        decreases ifs@.len() - i,
    {
        proof {
            assert(all.take(i + 1).drop_last() =~= all.take(i as int));
            assert(all.take(i + 1).last() == ifs@[i as int]@);
        }
        let ghost rest = state_views(r@);
        let ghost name = ifs@[i as int].name@;
        let mut at: usize = 0;
        while at < configs.len() && !((configs[at].beacon || configs[at].listen) && glob_match(
            configs[at].filter.as_str(),
            ifs[i].name.as_str(),
        ))
            invariant
                at <= configs@.len(),
                i < ifs@.len(),
                name == ifs@[i as int].name@,
                forall|j: int| 0 <= j < at ==> !speaks_of(name)(#[trigger] configs@[j]),
            decreases configs@.len() - at,
        {
            at = at + 1;
        }
        proof {
            lemma_first_index_at(configs@, speaks_of(name), at as int);
        }
        if at < configs.len() {
            let c = &configs[at];
            let password = to_vec(c.password.as_str().as_bytes());
            let hash = compute_auth_hash(key, password.as_slice());
            let state = InterfaceState {
                name: ifs[i].name.clone(),
                index: ifs[i].index,
                addrs: copy_addrs(&ifs[i].addrs),
                beacon: c.beacon,
                listen: c.listen,
                port: c.port,
                priority: c.priority,
                password,
                hash,
                beacon_interval: 1,
                last_beacon: None,
            };
            assert(state@ == state_new(ifs@[i as int]@, configs@[at as int], *key));
            r.push(state);
            assert(state_views(r@) =~= rest.push(state@));
        }
        i = i + 1;
    }
    assert(all.take(i as int) =~= all);
    r
}

/// The interfaces in use, and the ports on which links are accepted on them.
pub struct Beacons {
    pub interfaces: Vec<InterfaceState>,
    pub listeners: Vec<(String, u16)>,
}

/// The view of the interfaces in use.
#[verifier::ext_equal]
pub struct BeaconsView {
    pub interfaces: Seq<StateView>,
    pub listeners: Seq<(Seq<char>, u16)>,
}

impl View for Beacons {
    type V = BeaconsView;

    open spec fn view(&self) -> BeaconsView {
        BeaconsView {
            interfaces: state_views(self.interfaces@),
            listeners: self.listeners@.map_values(|l: (String, u16)| (l.0@, l.1)),
        }
    }
}

/// The property of having a name.
pub open spec fn state_named(name: Seq<char>) -> spec_fn(StateView) -> bool {
    |s: StateView| s.name == name
}

/// The place of the interface with a name, or the number of interfaces.
pub open spec fn place_of(s: Seq<StateView>, name: Seq<char>) -> int {
    first_index(s, state_named(name))
}

/// The interfaces that are still there, with their addresses of now. They keep the time of their
/// advertisements.
pub open spec fn survivors(old: Seq<StateView>, new: Seq<StateView>) -> Seq<StateView>
    decreases old.len(),
{
    if old.len() == 0 {
        Seq::empty()
    } else {
        let rest = survivors(old.drop_last(), new);
        let at = place_of(new, old.last().name);
        if at < new.len() {
            rest.push(StateView { addrs: new[at].addrs, index: new[at].index, ..old.last() })
        } else {
            rest
        }
    }
}

/// The interfaces that were not there before.
pub open spec fn newcomers(old: Seq<StateView>, new: Seq<StateView>) -> Seq<StateView>
    decreases new.len(),
{
    if new.len() == 0 {
        Seq::empty()
    } else {
        let rest = newcomers(old, new.drop_last());
        if place_of(old, new.last().name) < old.len() {
            rest
        } else {
            rest.push(new.last())
        }
    }
}

/// The listeners on interfaces that are there.
pub open spec fn listeners_on(l: Seq<(Seq<char>, u16)>, s: Seq<StateView>) -> Seq<(Seq<char>, u16)>
    decreases l.len(),
{
    if l.len() == 0 {
        Seq::empty()
    } else {
        let rest = listeners_on(l.drop_last(), s);
        if place_of(s, l.last().0) < s.len() {
            rest.push(l.last())
        } else {
            rest
        }
    }
}

/// The names of the listeners on interfaces that are gone.
pub open spec fn listeners_off(l: Seq<(Seq<char>, u16)>, s: Seq<StateView>) -> Seq<Seq<char>>
    decreases l.len(),
{
    if l.len() == 0 {
        Seq::empty()
    } else {
        let rest = listeners_off(l.drop_last(), s);
        if place_of(s, l.last().0) < s.len() {
            rest
        } else {
            rest.push(l.last().0)
        }
    }
}

/// The interfaces in use after the host was asked again.
pub open spec fn refreshed(b: BeaconsView, new: Seq<StateView>) -> BeaconsView {
    let now = survivors(b.interfaces, new) + newcomers(b.interfaces, new);
    BeaconsView { interfaces: now, listeners: listeners_on(b.listeners, now) }
}

/// The property of being the listener on an interface.
pub open spec fn listener_named(name: Seq<char>) -> spec_fn((Seq<char>, u16)) -> bool {
    |l: (Seq<char>, u16)| l.0 == name
}

/// The port of the listener on an interface.
pub open spec fn port_of(l: Seq<(Seq<char>, u16)>, name: Seq<char>) -> Option<u16> {
    let at = first_index(l, listener_named(name));
    if at < l.len() {
        Some(l[at].1)
    } else {
        None
    }
}

/// Whether an interface needs a listener and has none.
pub open spec fn needs_listener(b: BeaconsView, s: StateView) -> bool {
    s.beacon && s.addrs.len() > 0 && port_of(b.listeners, s.name) is None
}

/// Whether it is time for an advertisement.
pub open spec fn beacon_due(s: StateView, now: u64) -> bool {
    match s.last_beacon {
        None => true,
        Some(t) => elapsed(t, now) >= s.beacon_interval * 1_000_000_000,
    }
}

/// An interface after an advertisement: the next one comes a second later, up to a limit.
pub open spec fn beaconed(s: StateView, now: u64) -> StateView {
    StateView {
        beacon_interval: if s.beacon_interval < BEACON_MAX_INTERVAL {
            (s.beacon_interval + 1) as u64
        } else {
            s.beacon_interval
        },
        last_beacon: Some(now),
        ..s
    }
}

/// Whether an interface sends an advertisement now.
pub open spec fn sends(b: BeaconsView, s: StateView, now: u64) -> bool {
    s.beacon && port_of(b.listeners, s.name) is Some && beacon_due(s, now)
}

/// The advertisement on an interface.
pub open spec fn ad_of(b: BeaconsView, s: StateView, key: PublicKey) -> AdView {
    AdView {
        major_version: PROTOCOL_VERSION_MAJOR,
        minor_version: PROTOCOL_VERSION_MINOR,
        public_key: key,
        port: port_of(b.listeners, s.name)->0,
        hash: s.hash,
    }
}

/// The advertisements that the first `n` interfaces send, each with the number of its interface.
pub open spec fn ads_due(b: BeaconsView, key: PublicKey, now: u64, n: nat) -> Seq<(u32, Seq<u8>)>
    decreases n,
{
    if n == 0 || n > b.interfaces.len() {
        Seq::empty()
    } else {
        let rest = ads_due(b, key, now, (n - 1) as nat);
        let s = b.interfaces[n - 1];
        if sends(b, s, now) {
            rest.push((s.index, ad_bytes(ad_of(b, s, key))))
        } else {
            rest
        }
    }
}

/// The interfaces after they sent their advertisements.
pub open spec fn after_ads(b: BeaconsView, now: u64) -> BeaconsView {
    BeaconsView {
        interfaces: b.interfaces.map_values(
            |s: StateView|
                if sends(b, s, now) {
                    beaconed(s, now)
                } else {
                    s
                },
        ),
        ..b
    }
}

/// A neighbour that was found: through which interface, who it is, and where it accepts links.
#[derive(Clone, Copy, Debug, PartialEq, Eq)]
pub struct FoundPeer {
    pub interface: usize,
    pub key: PublicKey,
    pub port: u16,
}

/// The property of looking for neighbours on the interface with a number.
pub open spec fn listens_at(scope: u32) -> spec_fn(StateView) -> bool {
    |s: StateView| s.index == scope && s.listen
}

/// The neighbour that an advertisement makes known: one of our version, that is not ourselves and
/// is not linked to yet, on an interface on which we look, which knows its password.
pub open spec fn neighbour(
    b: BeaconsView,
    data: Seq<u8>,
    our_key: PublicKey,
    linked: Seq<PublicKey>,
    scope: u32,
) -> Option<FoundPeer> {
    match parse_ad(data) {
        Err(_) => None,
        Ok(a) => {
            let at = first_index(b.interfaces, listens_at(scope));
            if a.major_version == PROTOCOL_VERSION_MAJOR && a.minor_version
                == PROTOCOL_VERSION_MINOR && a.public_key != our_key && !linked.contains(
                a.public_key,
            ) && at < b.interfaces.len() && password_hash(
                a.public_key@,
                b.interfaces[at].password,
            ) == a.hash {
                Some(FoundPeer { interface: at as usize, key: a.public_key, port: a.port })
            } else {
                None
            }
        },
    }
}

/// What is shown of an interface in use.
#[derive(Clone, Debug)]
pub struct MulticastInterfaceInfo {
    pub name: String,
    pub beacon: bool,
    pub listen: bool,
    pub port: u16,
    pub password: bool,
}

/// The view of what is shown.
#[verifier::ext_equal]
pub struct InfoView {
    pub name: Seq<char>,
    pub beacon: bool,
    pub listen: bool,
    pub port: u16,
    pub password: bool,
}

impl View for MulticastInterfaceInfo {
    type V = InfoView;

    open spec fn view(&self) -> InfoView {
        InfoView {
            name: self.name@,
            beacon: self.beacon,
            listen: self.listen,
            port: self.port,
            password: self.password,
        }
    }
}

/// The views of what is shown.
pub open spec fn info_views(v: Seq<MulticastInterfaceInfo>) -> Seq<InfoView> {
    v.map_values(|i: MulticastInterfaceInfo| i@)
}

/// What is shown of an interface.
pub open spec fn info_of(b: BeaconsView, s: StateView) -> InfoView {
    InfoView {
        name: s.name,
        beacon: s.beacon,
        listen: s.listen,
        port: match port_of(b.listeners, s.name) {
            Some(p) => p,
            None => 0,
        },
        password: s.password.len() > 0,
    }
}

/// What is shown in the order of names.
pub open spec fn by_name(s: Seq<InfoView>) -> bool {
    forall|i: int, j: int|
        0 <= i < j < s.len() ==> !text_less((#[trigger] s[j]).name, (#[trigger] s[i]).name)
}

impl Beacons {
    /// The invariant: every password can key a hash, and the time between advertisements is
    /// within its limit.
    pub open spec fn wf(&self) -> bool {
        forall|i: int|
            0 <= i < self.interfaces@.len() ==> state_wf((#[trigger] self.interfaces@[i])@)
    }

    /// No interfaces.
    pub fn new() -> (r: Self)
        ensures
            r.wf(),
            r@ == (BeaconsView { interfaces: Seq::empty(), listeners: Seq::empty() }),
    {
        let r = Beacons { interfaces: Vec::new(), listeners: Vec::new() };
        assert(r@.interfaces =~= Seq::empty());
        assert(r@.listeners =~= Seq::empty());
        r
    }

    fn listener_port(&self, name: &String) -> (r: Option<u16>)
        ensures
            r == port_of(self@.listeners, name@),
    {
        let ghost l = self@.listeners;
        let mut i: usize = 0;
        while i < self.listeners.len()
            invariant
                i <= self.listeners@.len(),
                l == self@.listeners,
                forall|j: int| 0 <= j < i ==> !listener_named(name@)(#[trigger] l[j]),
            decreases self.listeners@.len() - i,
        {
            assert(l[i as int] == (self.listeners@[i as int].0@, self.listeners@[i as int].1));
            if self.listeners[i].0 == *name {
                proof {
                    lemma_first_index_at(l, listener_named(name@), i as int);
                }
                return Some(self.listeners[i].1);
            }
            i = i + 1;
        }
        proof {
            lemma_first_index_at(l, listener_named(name@), i as int);
        }
        None
    }

    /// Takes over what the host has now. Gives the names of the interfaces that are gone and had
    /// a listener.
    pub fn update(&mut self, new: Vec<InterfaceState>) -> (r: Vec<String>)
        requires
            old(self).wf(),
            forall|i: int| 0 <= i < new@.len() ==> state_wf((#[trigger] new@[i])@),
        ensures
            final(self).wf(),
            final(self)@ == refreshed(old(self)@, state_views(new@)),
            crate::peering::texts_view(r@) == listeners_off(
                old(self)@.listeners,
                final(self)@.interfaces,
            ),
    {
        let ghost b = self@;
        let ghost n = state_views(new@);
        let mut next: Vec<InterfaceState> = Vec::new();
        let mut i: usize = 0;
        assert(b.interfaces.take(0) =~= Seq::empty());
        assert(state_views(next@) =~= Seq::empty());
        while i < self.interfaces.len()
            invariant
                i <= self.interfaces@.len(),
                b == self@,
                self.wf(),
                n == state_views(new@),
                state_views(next@) == survivors(b.interfaces.take(i as int), n),
                forall|j: int| 0 <= j < next@.len() ==> state_wf((#[trigger] next@[j])@),
            decreases self.interfaces@.len() - i,
        {
            proof {
                assert(b.interfaces.take(i + 1).drop_last() =~= b.interfaces.take(i as int));
                assert(b.interfaces.take(i + 1).last() == self.interfaces@[i as int]@);
            }
            let ghost rest = state_views(next@);
            let at: usize = find_state(&new, &self.interfaces[i].name);
            if at < new.len() {
                let mut s = copy_state(&self.interfaces[i]);
                s.addrs = copy_addrs(&new[at].addrs);
                s.index = new[at].index;
                assert(n[at as int] == new@[at as int]@);
                next.push(s);
                assert(state_views(next@) =~= rest.push(s@));
            }
            i = i + 1;
        }
        assert(b.interfaces.take(i as int) =~= b.interfaces);
        let ghost kept_on = state_views(next@);
        let mut i: usize = 0;
        assert(n.take(0) =~= Seq::empty());
        assert(state_views(next@) =~= kept_on + newcomers(b.interfaces, n.take(0)));
        while i < new.len()
            invariant
                i <= new@.len(),
                b == self@,
                n == state_views(new@),
                state_views(next@) == kept_on + newcomers(b.interfaces, n.take(i as int)),
                forall|j: int| 0 <= j < next@.len() ==> state_wf((#[trigger] next@[j])@),
                forall|j: int| 0 <= j < new@.len() ==> state_wf((#[trigger] new@[j])@),
            decreases new@.len() - i,
        {
            proof {
                assert(n.take(i + 1).drop_last() =~= n.take(i as int));
                assert(n.take(i + 1).last() == new@[i as int]@);
            }
            let ghost rest = state_views(next@);
            if find_state(&self.interfaces, &new[i].name) >= self.interfaces.len() {
                let s = copy_state(&new[i]);
                next.push(s);
                assert(state_views(next@) =~= rest.push(s@));
                assert(state_views(next@) =~= kept_on + newcomers(b.interfaces, n.take(i + 1)));
            }
            i = i + 1;
        }
        assert(n.take(i as int) =~= n);
        self.interfaces = next;
        let ghost now = self@.interfaces;
        let mut gone: Vec<String> = Vec::new();
        let mut left: Vec<(String, u16)> = Vec::new();
        let mut i: usize = 0;
        let ghost l = b.listeners;
        proof {
            assert(l.take(0) =~= Seq::empty());
            assert(crate::peering::texts_view(gone@) =~= Seq::empty());
            assert(left@.map_values(|l: (String, u16)| (l.0@, l.1)) =~= Seq::empty());
        }
        while i < self.listeners.len()
            invariant
                i <= self.listeners@.len(),
                l == self@.listeners,
                now == self@.interfaces,
                crate::peering::texts_view(gone@) == listeners_off(l.take(i as int), now),
                left@.map_values(|l: (String, u16)| (l.0@, l.1)) == listeners_on(
                    l.take(i as int),
                    now,
                ),
                self.wf(),
            decreases self.listeners@.len() - i,
        {
            proof {
                assert(l.take(i + 1).drop_last() =~= l.take(i as int));
                assert(l.take(i + 1).last() == (
                    self.listeners@[i as int].0@,
                    self.listeners@[i as int].1,
                ));
            }
            let ghost off = crate::peering::texts_view(gone@);
            let ghost on = left@.map_values(|l: (String, u16)| (l.0@, l.1));
            let name = self.listeners[i].0.clone();
            let port: u16 = self.listeners[i].1;
            if find_state(&self.interfaces, &name) < self.interfaces.len() {
                left.push((name, port));
                assert(left@.map_values(|l: (String, u16)| (l.0@, l.1)) =~= on.push(
                    (name@, port),
                ));
            } else {
                gone.push(name);
                assert(crate::peering::texts_view(gone@) =~= off.push(name@));
            }
            i = i + 1;
        }
        assert(l.take(i as int) =~= l);
        self.listeners = left;
        gone
    }

    /// The places of the interfaces that need a listener and have none, in ascending order.
    pub fn listeners_wanted(&self) -> (r: Vec<usize>)
        ensures
            forall|i: int|
                0 <= i < self@.interfaces.len() && i <= usize::MAX ==> (r@.contains(i as usize)
                    == needs_listener(self@, #[trigger] self@.interfaces[i])),
            forall|k: int| 0 <= k < r@.len() ==> (#[trigger] r@[k]) < self@.interfaces.len(),
            forall|j: int, k: int| 0 <= j < k < r@.len() ==> (#[trigger] r@[j]) < (#[trigger] r@[k]),
    {
        let mut r: Vec<usize> = Vec::new();
        let mut i: usize = 0;
        while i < self.interfaces.len()
            invariant
                i <= self.interfaces@.len(),
                forall|j: int|
                    0 <= j < i ==> (r@.contains(j as usize) == needs_listener(
                        self@,
                        #[trigger] self@.interfaces[j],
                    )),
                forall|k: int| 0 <= k < r@.len() ==> (#[trigger] r@[k]) < i,
                forall|j: int, k: int|
                    0 <= j < k < r@.len() ==> (#[trigger] r@[j]) < (#[trigger] r@[k]),
            decreases self.interfaces@.len() - i,
        {
            let s = &self.interfaces[i];
            let ghost before = r@;
            assert(self@.interfaces[i as int] == s@);
            let wanted: bool = s.beacon && s.addrs.len() > 0 && self.listener_port(
                &s.name,
            ).is_none();
            if wanted {
                r.push(i);
            }
            proof {
                assert forall|j: int| 0 <= j < i + 1 implies (r@.contains(j as usize)
                    == needs_listener(self@, #[trigger] self@.interfaces[j])) by {
                    if j < i {
                        if before.contains(j as usize) {
                            let k = choose|k: int| 0 <= k < before.len() && before[k] == j as usize;
                            assert(r@[k] == j as usize);
                        } else if r@.contains(j as usize) {
                            let k = choose|k: int| 0 <= k < r@.len() && r@[k] == j as usize;
                            assert(before[k] == j as usize);
                        }
                    } else if wanted {
                        assert(r@[before.len() as int] == i);
                    } else if r@.contains(i) {
                        let k = choose|k: int| 0 <= k < r@.len() && r@[k] == i;
                        assert(before[k] < i);
                    }
                }
            }
            i = i + 1;
        }
        r
    }

    /// Takes note of a listener that was started.
    pub fn listener_started(&mut self, name: &String, port: u16)
        requires
            old(self).wf(),
        ensures
            final(self).wf(),
            final(self)@.interfaces == old(self)@.interfaces,
            final(self)@.listeners == (if port_of(old(self)@.listeners, name@) is Some {
                old(self)@.listeners
            } else {
                old(self)@.listeners.push((name@, port))
            }),
    {
        let ghost l = self@.listeners;
        if self.listener_port(name).is_none() {
            self.listeners.push((name.clone(), port));
            assert(self@.listeners =~= l.push((name@, port)));
        }
    }

    /// The advertisements that are to be sent now, each with the number of its interface.
    pub fn beacons_due(&mut self, key: &PublicKey, now: u64) -> (r: Vec<(u32, Vec<u8>)>)
        requires
            old(self).wf(),
        ensures
            final(self).wf(),
            final(self)@ == after_ads(old(self)@, now),
            r@.map_values(|a: (u32, Vec<u8>)| (a.0, a.1@)) == ads_due(
                old(self)@,
                *key,
                now,
                old(self)@.interfaces.len(),
            ),
    {
        let ghost b = self@;
        let ghost all = after_ads(b, now).interfaces;
        let mut r: Vec<(u32, Vec<u8>)> = Vec::new();
        let mut i: usize = 0;
        assert(r@.map_values(|a: (u32, Vec<u8>)| (a.0, a.1@)) =~= Seq::empty());
        while i < self.interfaces.len()
            invariant
                i <= self.interfaces@.len(),
                self.interfaces@.len() == b.interfaces.len(),
                all == after_ads(b, now).interfaces,
                self.wf(),
                self@.listeners == b.listeners,
                forall|j: int|
                    0 <= j < b.interfaces.len() ==> (#[trigger] self@.interfaces[j]) == (if j < i {
                        all[j]
                    } else {
                        b.interfaces[j]
                    }),
                r@.map_values(|a: (u32, Vec<u8>)| (a.0, a.1@)) == ads_due(b, *key, now, i as nat),
            decreases self.interfaces@.len() - i,
        {
            let ghost s = b.interfaces[i as int];
            let ghost before = self@;
            let ghost sent_so_far = r@.map_values(|a: (u32, Vec<u8>)| (a.0, a.1@));
            proof {
                assert(self@.interfaces[i as int] == s);
                assert(self.interfaces@[i as int]@ == s);
                assert(state_wf(s));
            }
            let port = self.listener_port(&self.interfaces[i].name);
            let interval: u64 = self.interfaces[i].beacon_interval;
            let due: bool = match self.interfaces[i].last_beacon {
                None => true,
                Some(t) => now.saturating_sub(t) >= interval * 1_000_000_000,
            };
            if let Some(p) = port {
                if self.interfaces[i].beacon && due {
                    let ad = Advertisement {
                        major_version: PROTOCOL_VERSION_MAJOR,
                        minor_version: PROTOCOL_VERSION_MINOR,
                        public_key: *key,
                        port: p,
                        hash: to_vec(self.interfaces[i].hash.as_slice()),
                    };
                    let index: u32 = self.interfaces[i].index;
                    let data = ad.encode();
                    let ghost d = data@;
                    r.push((index, data));
                    assert(r@.map_values(|a: (u32, Vec<u8>)| (a.0, a.1@)) =~= sent_so_far.push(
                        (index, d),
                    ));
                    let state = &mut self.interfaces[i];
                    if state.beacon_interval < BEACON_MAX_INTERVAL {
                        state.beacon_interval = state.beacon_interval + 1;
                    }
                    state.last_beacon = Some(now);
                    proof {
                        assert(self@.interfaces =~= before.interfaces.update(
                            i as int,
                            beaconed(s, now),
                        ));
                        assert(self@.listeners == before.listeners);
                        assert forall|j: int| 0 <= j < self.interfaces@.len() implies state_wf(
                            (#[trigger] self.interfaces@[j])@,
                        ) by {
                            assert(self@.interfaces[j] == self.interfaces@[j]@);
                            if j != i {
                                assert(before.interfaces[j] == self.interfaces@[j]@);
                            }
                        }
                    }
                }
            }
            i = i + 1;
        }
        assert(self@.interfaces =~= all);
        r
    }

    /// The neighbour that an advertisement makes known.
    pub fn receive(
        &self,
        data: &[u8],
        our_key: &PublicKey,
        linked: &Vec<PublicKey>,
        scope: u32,
    ) -> (r: Option<FoundPeer>)
        requires
            self.wf(),
        ensures
            r == neighbour(self@, data@, *our_key, linked@, scope),
    {
        let ad = match Advertisement::decode(data) {
            Ok(a) => a,
            Err(_) => {
                return None;
            },
        };
        if ad.major_version != PROTOCOL_VERSION_MAJOR {
            return None;
        }
        if ad.minor_version != PROTOCOL_VERSION_MINOR {
            return None;
        }
        if key_eq(&ad.public_key, our_key) {
            return None;
        }
        if crate::links::has_public_key(linked, &ad.public_key) {
            return None;
        }
        let ghost s = self@.interfaces;
        let mut at: usize = 0;
        while at < self.interfaces.len() && !(self.interfaces[at].index == scope
            && self.interfaces[at].listen)
            invariant
                at <= self.interfaces@.len(),
                s == self@.interfaces,
                forall|j: int| 0 <= j < at ==> !listens_at(scope)(#[trigger] s[j]),
            decreases self.interfaces@.len() - at,
        {
            assert(s[at as int] == self.interfaces@[at as int]@);
            at = at + 1;
        }
        proof {
            if at < self.interfaces@.len() {
                assert(s[at as int] == self.interfaces@[at as int]@);
            }
            lemma_first_index_at(s, listens_at(scope), at as int);
        }
        if at >= self.interfaces.len() {
            return None;
        }
        assert(state_wf(self.interfaces@[at as int]@));
        let expected = compute_auth_hash(
            &ad.public_key,
            self.interfaces[at].password.as_slice(),
        );
        if bytes_eq(expected.as_slice(), ad.hash.as_slice()) {
            Some(FoundPeer { interface: at, key: ad.public_key, port: ad.port })
        } else {
            None
        }
    }

    /// What is shown of the interfaces, in the order of their names.
    pub fn get_interfaces(&self) -> (r: Vec<MulticastInterfaceInfo>)
        ensures
            by_name(info_views(r@)),
            info_views(r@).to_multiset() == self@.interfaces.map_values(
                |s: StateView| info_of(self@, s),
            ).to_multiset(),
    {
        let ghost all = self@.interfaces.map_values(|s: StateView| info_of(self@, s));
        let mut r: Vec<MulticastInterfaceInfo> = Vec::new();
        let mut i: usize = 0;
        proof {
            assert(all.take(0) =~= Seq::empty());
            assert(info_views(r@) =~= Seq::empty());
        }
        while i < self.interfaces.len()
            invariant
                i <= self.interfaces@.len(),
                all == self@.interfaces.map_values(|s: StateView| info_of(self@, s)),
                by_name(info_views(r@)),
                info_views(r@).to_multiset() == all.take(i as int).to_multiset(),
            decreases self.interfaces@.len() - i,
        {
            let s = &self.interfaces[i];
            let port: u16 = match self.listener_port(&s.name) {
                Some(p) => p,
                None => 0,
            };
            let info = MulticastInterfaceInfo {
                name: s.name.clone(),
                beacon: s.beacon,
                listen: s.listen,
                port,
                password: s.password.len() > 0,
            };
            proof {
                assert(self@.interfaces[i as int] == s@);
                assert(info@ == all[i as int]);
                assert(all.take(i + 1) =~= all.take(i as int).push(info@));
                all.take(i as int).to_multiset_ensures();
            }
            insert_by_name(&mut r, info);
            i = i + 1;
        }
        assert(all.take(i as int) =~= all);
        r
    }
}

/// The invariant of an interface in use.
pub open spec fn state_wf(s: StateView) -> bool {
    &&& s.password.len() <= MAX_PASSWORD_LEN
    &&& s.beacon_interval <= BEACON_MAX_INTERVAL
}

fn find_state(v: &Vec<InterfaceState>, name: &String) -> (r: usize)
    ensures
        r == place_of(state_views(v@), name@),
        r <= v@.len(),
{
    let ghost s = state_views(v@);
    let mut i: usize = 0;
    while i < v.len() && !(v[i].name == *name)
        invariant
            i <= v@.len(),
            s == state_views(v@),
            forall|j: int| 0 <= j < i ==> !state_named(name@)(#[trigger] s[j]),
        decreases v@.len() - i,
    {
        assert(s[i as int] == v@[i as int]@);
        i = i + 1;
    }
    proof {
        if i < v@.len() {
            assert(s[i as int] == v@[i as int]@);
        }
        lemma_first_index_at(s, state_named(name@), i as int);
    }
    i
}

fn copy_state(s: &InterfaceState) -> (r: InterfaceState)
    ensures
        r@ == s@,
{
    InterfaceState {
        name: s.name.clone(),
        index: s.index,
        addrs: copy_addrs(&s.addrs),
        beacon: s.beacon,
        listen: s.listen,
        port: s.port,
        priority: s.priority,
        password: to_vec(s.password.as_slice()),
        hash: to_vec(s.hash.as_slice()),
        beacon_interval: s.beacon_interval,
        last_beacon: s.last_beacon,
    }
}

fn insert_by_name(v: &mut Vec<MulticastInterfaceInfo>, e: MulticastInterfaceInfo)
    requires
        by_name(info_views(old(v)@)),
    ensures
        by_name(info_views(final(v)@)),
        info_views(final(v)@).to_multiset() == info_views(old(v)@).to_multiset().insert(e@),
{
    let ghost before = info_views(v@);
    let ghost x = e@;
    let mut at: usize = v.len();
    while at > 0 && comes_first(e.name.as_str(), v[at - 1].name.as_str())
        invariant
            at <= v@.len(),
            v@ == old(v)@,
            before == info_views(v@),
            x == e@,
            forall|j: int| at <= j < before.len() ==> text_less(x.name, (#[trigger] before[j]).name),
        decreases at,
    {
        assert(before[at - 1] == v@[at - 1]@);
        at = at - 1;
    }
    proof {
        if at > 0 {
            assert(before[at - 1] == v@[at - 1]@);
        }
        assert forall|i: int| 0 <= i < at implies !text_less(
            x.name,
            (#[trigger] before[i]).name,
        ) by {
            if i < at - 1 {
                assert(!text_less(before[at - 1].name, before[i].name));
                lemma_text_order(before[at - 1].name, x.name, before[i].name);
            }
        }
        assert forall|j: int| at <= j < before.len() implies !text_less(
            (#[trigger] before[j]).name,
            x.name,
        ) by {
            lemma_text_order(x.name, before[j].name, x.name);
        }
        vstd::seq_lib::to_multiset_insert(before, at as int, x);
    }
    v.insert(at, e);
    assert(info_views(v@) =~= before.insert(at as int, x));
}

/// The pause before the host is asked again, in nanoseconds: a second, and up to about another at
/// random.
pub fn beacon_pause(draw: u32) -> (r: u64)
    ensures
        r == 1_000_000_000 + (draw as nat % 1_048_576) * 1000,
{
    1_000_000_000 + (draw % 1_048_576) as u64 * 1000
}

// ---------------------------------------------------------------------------
// Laws
// ---------------------------------------------------------------------------

/// An advertisement is heard: a node that looks on an interface with the same password, and is
/// neither the sender nor linked to it, finds the sender and where it accepts links.
pub proof fn lemma_advertisement_is_heard(
    sender: BeaconsView,
    s: StateView,
    key: PublicKey,
    reader: BeaconsView,
    our_key: PublicKey,
    linked: Seq<PublicKey>,
    scope: u32,
    password: Seq<u8>,
)
    requires
        s.password == password,
        s.hash == password_hash(key@, password),
        s.hash.len() < 0x1_0000,
        key != our_key,
        !linked.contains(key),
        ({
            let at = first_index(reader.interfaces, listens_at(scope));
            at < reader.interfaces.len() && reader.interfaces[at].password == password
        }),
    ensures
        neighbour(reader, ad_bytes(ad_of(sender, s, key)), our_key, linked, scope) == Some(
            FoundPeer {
                interface: first_index(reader.interfaces, listens_at(scope)) as usize,
                key,
                port: ad_of(sender, s, key).port,
            },
        ),
{
    let a = ad_of(sender, s, key);
    lemma_ad_round_trip(a, Seq::empty());
    assert(ad_bytes(a) + Seq::<u8>::empty() =~= ad_bytes(a));
}

/// We never find ourselves, nor a node that is linked to already.
pub proof fn lemma_not_found_twice(
    b: BeaconsView,
    data: Seq<u8>,
    our_key: PublicKey,
    linked: Seq<PublicKey>,
    scope: u32,
)
    requires
        neighbour(b, data, our_key, linked, scope) is Some,
    ensures
        neighbour(b, data, our_key, linked, scope)->0.key != our_key,
        !linked.contains(neighbour(b, data, our_key, linked, scope)->0.key),
{
}

/// Whether an address is one through which neighbours can be found: link-local, on an interface that is
/// up, running and multicast-capable, and is neither a point-to-point link nor the loopback.
pub open spec fn can_find(r: RawView, a: [u8; 16]) -> bool {
    &&& r.addr == Some(a)
    &&& r.up && r.running && r.multicast
    &&& !r.point_to_point && !r.loopback
    &&& a@[0] == 254 && 128 <= a@[1] <= 191
}

/// Interfaces have exactly their own addresses through which neighbours can be found: each such address
/// of the host is with the interface of its name, and an interface has no other.
pub proof fn lemma_interfaces_have_their_addresses(raw: Seq<RawView>, name: Seq<char>, a: [u8; 16])
    ensures
        (exists|k: int|
            0 <= k < grouped(raw).len() && (#[trigger] grouped(raw)[k]).name == name && grouped(
                raw,
            )[k].addrs.contains(a)) <==> exists|i: int|
            0 <= i < raw.len() && (#[trigger] raw[i]).name == name && can_find(raw[i], a),
    decreases raw.len(),
{
    if raw.len() > 0 {
        let d = raw.drop_last();
        let rest = grouped(d);
        let last = raw.last();
        let now = grouped(raw);
        lemma_interfaces_have_their_addresses(d, name, a);
        lemma_first_index(rest, if_named(last.name));
        let at = first_index(rest, if_named(last.name));
        assert(raw[raw.len() - 1] == last);
        if exists|k: int| 0 <= k < rest.len() && (#[trigger] rest[k]).name == name && rest[k].addrs.contains(a) {
            let k = choose|k: int|
                0 <= k < rest.len() && (#[trigger] rest[k]).name == name && rest[k].addrs.contains(a);
            let m = choose|m: int| 0 <= m < rest[k].addrs.len() && rest[k].addrs[m] == a;
            assert(now[k].name == name && now[k].addrs[m] == a);
            let i = choose|i: int| 0 <= i < d.len() && (#[trigger] d[i]).name == name && can_find(d[i], a);
            assert(raw[i] == d[i]);
        }
        if exists|k: int| 0 <= k < now.len() && (#[trigger] now[k]).name == name && now[k].addrs.contains(a) {
            let k = choose|k: int|
                0 <= k < now.len() && (#[trigger] now[k]).name == name && now[k].addrs.contains(a);
            let m = choose|m: int| 0 <= m < now[k].addrs.len() && now[k].addrs[m] == a;
            if k < rest.len() && m < rest[k].addrs.len() {
                assert(rest[k].name == name && rest[k].addrs[m] == a);
                assert(rest[k].addrs.contains(a));
            } else {
                if at < rest.len() {
                    assert(if_named(last.name)(rest[at]));
                }
                assert(can_find(raw[raw.len() - 1], a));
                assert(raw[raw.len() - 1].name == name);
            }
        }
        if exists|i: int| 0 <= i < raw.len() && (#[trigger] raw[i]).name == name && can_find(raw[i], a) {
            let i = choose|i: int|
                0 <= i < raw.len() && (#[trigger] raw[i]).name == name && can_find(raw[i], a);
            if i < d.len() {
                assert(d[i] == raw[i]);
            } else if at < rest.len() {
                assert(if_named(last.name)(rest[at]));
                assert(now[at].addrs[rest[at].addrs.len() as int] == a);
                assert(now[at].name == name && now[at].addrs.contains(a));
            } else {
                assert(now[rest.len() as int].addrs[0] == a);
                assert(now[rest.len() as int].name == name && now[rest.len() as int].addrs.contains(a));
            }
        }
    }
}

/// An interface is used under the first configuration that is switched on and whose pattern its name
/// fits, with all that this says; where there is none, it is not used.
pub proof fn lemma_first_configuration_counts(
    ifs: Seq<IfView>,
    configs: Seq<MulticastInterfaceConfig>,
    key: PublicKey,
    i: int,
    j: int,
)
    requires
        0 <= i < ifs.len(),
        0 <= j < configs.len(),
        configs[j].beacon || configs[j].listen,
        fits(configs[j].filter@, ifs[i].name),
        forall|m: int|
            0 <= m < j ==> !(((#[trigger] configs[m]).beacon || configs[m].listen) && fits(
                configs[m].filter@,
                ifs[i].name,
            )),
    ensures
        exists|k: int|
            0 <= k < configured(ifs, configs, key).len() && {
                let s = #[trigger] configured(ifs, configs, key)[k];
                let c = configs[j];
                &&& s.name == ifs[i].name && s.index == ifs[i].index && s.addrs == ifs[i].addrs
                &&& s.beacon == c.beacon && s.listen == c.listen
                &&& s.port == c.port && s.priority == c.priority
                &&& s.password == utf8(c.password@)
                &&& s.hash == password_hash(key@, utf8(c.password@))
                &&& s.beacon_interval == 1 && s.last_beacon is None
            },
    decreases ifs.len(),
{
    let d = ifs.drop_last();
    let rest = configured(d, configs, key);
    let all = configured(ifs, configs, key);
    if i < d.len() {
        assert(d[i] == ifs[i]);
        lemma_first_configuration_counts(d, configs, key, i, j);
        let k = choose|k: int|
            0 <= k < rest.len() && {
                let s = #[trigger] rest[k];
                let c = configs[j];
                &&& s.name == ifs[i].name && s.index == ifs[i].index && s.addrs == ifs[i].addrs
                &&& s.beacon == c.beacon && s.listen == c.listen
                &&& s.port == c.port && s.priority == c.priority
                &&& s.password == utf8(c.password@)
                &&& s.hash == password_hash(key@, utf8(c.password@))
                &&& s.beacon_interval == 1 && s.last_beacon is None
            };
        assert(all[k] == rest[k]);
    } else {
        let p = speaks_of(ifs[i].name);
        lemma_first_index(configs, p);
        let at = first_index(configs, p);
        assert(p(configs[j]));
        if at < j {
            assert(p(configs[at]));
        }
        assert(all[all.len() - 1] == state_new(ifs.last(), configs[at], key));
    }
}

/// No interface is used that the host does not have or of which no configuration that is switched on
/// speaks.
pub proof fn lemma_only_configured_interfaces(
    ifs: Seq<IfView>,
    configs: Seq<MulticastInterfaceConfig>,
    key: PublicKey,
    k: int,
)
    requires
        0 <= k < configured(ifs, configs, key).len(),
    ensures
        exists|i: int, j: int|
            0 <= i < ifs.len() && 0 <= j < configs.len() && (#[trigger] ifs[i]).name == configured(
                ifs,
                configs,
                key,
            )[k].name && ((#[trigger] configs[j]).beacon || configs[j].listen) && fits(
                configs[j].filter@,
                ifs[i].name,
            ),
    decreases ifs.len(),
{
    let d = ifs.drop_last();
    let rest = configured(d, configs, key);
    let all = configured(ifs, configs, key);
    if k < rest.len() {
        lemma_only_configured_interfaces(d, configs, key, k);
        assert(all[k] == rest[k]);
        let (i, j) = choose|i: int, j: int|
            0 <= i < d.len() && 0 <= j < configs.len() && (#[trigger] d[i]).name == rest[k].name && ((
            #[trigger] configs[j]).beacon || configs[j].listen) && fits(configs[j].filter@, d[i].name);
        assert(ifs[i] == d[i]);
        assert(ifs[i].name == all[k].name && (configs[j].beacon || configs[j].listen));
    } else {
        let p = speaks_of(ifs.last().name);
        lemma_first_index(configs, p);
        let at = first_index(configs, p);
        assert(p(configs[at]));
        assert(ifs[ifs.len() - 1].name == all[k].name && (configs[at].beacon || configs[at].listen));
    }
}

/// Every advertisement that is due goes out: from each interface that makes us known, has a listener,
/// and sent none for as many seconds as its interval, with its number, our key, the port of the
/// listener and the hash. Nothing else does.
pub proof fn lemma_due_advertisements_go_out(b: BeaconsView, key: PublicKey, now: u64, n: nat, i: int)
    requires
        0 <= i < n <= b.interfaces.len(),
    ensures
        ({
            let s = b.interfaces[i];
            let due = match s.last_beacon {
                None => true,
                Some(t) => now >= t + s.beacon_interval * 1_000_000_000,
            };
            (s.beacon && due && (port_of(b.listeners, s.name) is Some) && (s.last_beacon matches Some(t)
                ==> t <= now)) ==> ads_due(b, key, now, n).contains(
                (
                    s.index,
                    ad_bytes(
                        AdView {
                            major_version: PROTOCOL_VERSION_MAJOR,
                            minor_version: PROTOCOL_VERSION_MINOR,
                            public_key: key,
                            port: port_of(b.listeners, s.name)->0,
                            hash: s.hash,
                        },
                    ),
                ),
            )
        }),
    decreases n,
{
    let s = b.interfaces[i];
    let all = ads_due(b, key, now, n);
    let x = (s.index, ad_bytes(ad_of(b, s, key)));
    if i < n - 1 {
        lemma_due_advertisements_go_out(b, key, now, (n - 1) as nat, i);
        let rest = ads_due(b, key, now, (n - 1) as nat);
        if rest.contains(x) {
            let k = choose|k: int| 0 <= k < rest.len() && rest[k] == x;
            assert(all[k] == x);
        }
    } else if sends(b, s, now) {
        assert(all[all.len() - 1] == x);
    }
}

/// Nothing is sent that is not due: every advertisement is that of an interface that makes us known, has
/// a listener, and sent none for as many seconds as its interval.
pub proof fn lemma_only_due_advertisements(b: BeaconsView, key: PublicKey, now: u64, n: nat, k: int)
    requires
        n <= b.interfaces.len(),
        0 <= k < ads_due(b, key, now, n).len(),
    ensures
        exists|i: int|
            0 <= i < n && {
                let s = #[trigger] b.interfaces[i];
                &&& s.index == ads_due(b, key, now, n)[k].0
                &&& s.beacon
                &&& port_of(b.listeners, s.name) is Some
                &&& s.last_beacon matches Some(t) ==> now >= t + s.beacon_interval * 1_000_000_000 || (now
                    < t && s.beacon_interval == 0)
            },
    decreases n,
{
    let rest = ads_due(b, key, now, (n - 1) as nat);
    let all = ads_due(b, key, now, n);
    if k < rest.len() {
        lemma_only_due_advertisements(b, key, now, (n - 1) as nat, k);
        assert(all[k] == rest[k]);
    } else {
        let s = b.interfaces[n - 1];
        assert(sends(b, s, now));
    }
}

/// The more often an interface made us known, the longer it waits: a second more each time, up to fifteen.
/// Nothing else of it changes.
pub proof fn lemma_interval_grows(s: StateView, now: u64)
    ensures
        beaconed(s, now).last_beacon == Some(now),
        s.beacon_interval < 15 ==> beaconed(s, now).beacon_interval == s.beacon_interval + 1,
        s.beacon_interval >= 15 ==> beaconed(s, now).beacon_interval == s.beacon_interval,
        beaconed(s, now) == (StateView {
            last_beacon: Some(now),
            beacon_interval: beaconed(s, now).beacon_interval,
            ..s
        }),
{
}

proof fn lemma_survivor(old: Seq<StateView>, new: Seq<StateView>, i: int)
    requires
        0 <= i < old.len(),
        place_of(new, old[i].name) < new.len(),
    ensures
        survivors(old, new).contains(
            StateView {
                addrs: new[place_of(new, old[i].name)].addrs,
                index: new[place_of(new, old[i].name)].index,
                ..old[i]
            },
        ),
    decreases old.len(),
{
    let d = old.drop_last();
    let rest = survivors(d, new);
    let all = survivors(old, new);
    let x = StateView {
        addrs: new[place_of(new, old[i].name)].addrs,
        index: new[place_of(new, old[i].name)].index,
        ..old[i]
    };
    if i < d.len() {
        assert(d[i] == old[i]);
        lemma_survivor(d, new, i);
        let k = choose|k: int| 0 <= k < rest.len() && rest[k] == x;
        assert(all[k] == x);
    } else {
        assert(all[all.len() - 1] == x);
    }
}

proof fn lemma_newcomer(old: Seq<StateView>, new: Seq<StateView>, i: int)
    requires
        0 <= i < new.len(),
        place_of(old, new[i].name) >= old.len(),
    ensures
        newcomers(old, new).contains(new[i]),
    decreases new.len(),
{
    let d = new.drop_last();
    let rest = newcomers(old, d);
    let all = newcomers(old, new);
    if i < d.len() {
        assert(d[i] == new[i]);
        lemma_newcomer(old, d, i);
        let k = choose|k: int| 0 <= k < rest.len() && rest[k] == new[i];
        assert(all[k] == new[i]);
    } else {
        assert(all[all.len() - 1] == new[i]);
    }
}

proof fn lemma_survivors_are_new(old: Seq<StateView>, new: Seq<StateView>, k: int)
    requires
        0 <= k < survivors(old, new).len(),
    ensures
        place_of(new, survivors(old, new)[k].name) < new.len(),
    decreases old.len(),
{
    let rest = survivors(old.drop_last(), new);
    if k < rest.len() {
        lemma_survivors_are_new(old.drop_last(), new, k);
        assert(survivors(old, new)[k] == rest[k]);
    }
}

proof fn lemma_newcomers_are_new(old: Seq<StateView>, new: Seq<StateView>, k: int)
    requires
        0 <= k < newcomers(old, new).len(),
    ensures
        new.contains(newcomers(old, new)[k]),
    decreases new.len(),
{
    let d = new.drop_last();
    let rest = newcomers(old, d);
    if k < rest.len() {
        lemma_newcomers_are_new(old, d, k);
        assert(newcomers(old, new)[k] == rest[k]);
        let j = choose|j: int| 0 <= j < d.len() && d[j] == rest[k];
        assert(new[j] == rest[k]);
    } else {
        assert(new[new.len() - 1] == new.last());
    }
}

/// After the host was asked again exactly the interfaces that it has now are in use: one that was in use
/// goes on with the addresses of now and keeps the time of its advertisements; one that is new starts
/// anew; one that is gone is not in use any more.
pub proof fn lemma_interfaces_follow_the_host(b: BeaconsView, new: Seq<StateView>, name: Seq<char>)
    ensures
        ({
            let now = refreshed(b, new).interfaces;
            let there = exists|i: int| 0 <= i < new.len() && (#[trigger] new[i]).name == name;
            let used = exists|k: int| 0 <= k < now.len() && (#[trigger] now[k]).name == name;
            &&& used <==> there
            &&& forall|i: int|
                0 <= i < b.interfaces.len() && (#[trigger] b.interfaces[i]).name == name && there ==> exists|
                    k: int,
                |
                    0 <= k < now.len() && (#[trigger] now[k]).name == name && now[k].last_beacon
                        == b.interfaces[i].last_beacon && now[k].beacon_interval
                        == b.interfaces[i].beacon_interval && now[k].addrs == new[place_of(
                        new,
                        name,
                    )].addrs
            &&& forall|i: int|
                0 <= i < new.len() && (#[trigger] new[i]).name == name && (forall|j: int|
                    0 <= j < b.interfaces.len() ==> (#[trigger] b.interfaces[j]).name != name)
                    ==> now.contains(new[i])
        }),
{
    let old = b.interfaces;
    let sv = survivors(old, new);
    let nc = newcomers(old, new);
    let now = refreshed(b, new).interfaces;
    lemma_first_index(new, state_named(name));
    lemma_first_index(old, state_named(name));
    let there = exists|i: int| 0 <= i < new.len() && (#[trigger] new[i]).name == name;
    if there {
        let i = choose|i: int| 0 <= i < new.len() && (#[trigger] new[i]).name == name;
        assert(state_named(name)(new[i]));
        assert(place_of(new, name) < new.len());
        if place_of(old, name) < old.len() {
            let j = place_of(old, name);
            assert(state_named(name)(old[j]));
            lemma_survivor(old, new, j);
            let x = StateView {
                addrs: new[place_of(new, name)].addrs,
                index: new[place_of(new, name)].index,
                ..old[j]
            };
            let k = choose|k: int| 0 <= k < sv.len() && sv[k] == x;
            assert(now[k] == x);
            assert(now[k].name == name);
        } else {
            lemma_newcomer(old, new, i);
            let k = choose|k: int| 0 <= k < nc.len() && nc[k] == new[i];
            assert(now[sv.len() + k] == new[i]);
            assert(now[sv.len() + k].name == name);
        }
    }
    if exists|k: int| 0 <= k < now.len() && (#[trigger] now[k]).name == name {
        let k = choose|k: int| 0 <= k < now.len() && (#[trigger] now[k]).name == name;
        if k < sv.len() {
            assert(now[k] == sv[k]);
            lemma_survivors_are_new(old, new, k);
            assert(state_named(name)(new[place_of(new, name)]));
            assert(new[place_of(new, name)].name == name);
        } else {
            assert(now[k] == nc[k - sv.len()]);
            lemma_newcomers_are_new(old, new, k - sv.len());
            let j = choose|j: int| 0 <= j < new.len() && new[j] == now[k];
            assert(new[j].name == name);
        }
    }
    assert forall|i: int|
        0 <= i < old.len() && (#[trigger] old[i]).name == name && there implies exists|k: int|
        0 <= k < now.len() && (#[trigger] now[k]).name == name && now[k].last_beacon
            == old[i].last_beacon && now[k].beacon_interval == old[i].beacon_interval && now[k].addrs
            == new[place_of(new, name)].addrs by {
        lemma_survivor(old, new, i);
        let x = StateView {
            addrs: new[place_of(new, name)].addrs,
            index: new[place_of(new, name)].index,
            ..old[i]
        };
        let k = choose|k: int| 0 <= k < sv.len() && sv[k] == x;
        assert(now[k] == x);
        assert(now[k].name == name);
    }
    assert forall|i: int|
        0 <= i < new.len() && (#[trigger] new[i]).name == name && (forall|j: int|
            0 <= j < old.len() ==> (#[trigger] old[j]).name != name) implies now.contains(new[i]) by {
        if place_of(old, name) < old.len() {
            assert(state_named(name)(old[place_of(old, name)]));
            assert(old[place_of(old, name)].name == name);
        }
        lemma_newcomer(old, new, i);
        let k = choose|k: int| 0 <= k < nc.len() && nc[k] == new[i];
        assert(now[sv.len() + k] == new[i]);
    }
}

/// A neighbour is found exactly by an advertisement that can be read, of our very version, of a node that
/// is neither ourselves nor linked to, on an interface on which we look, with the hash of its key
/// under our password. The interface is the first with that number on which we look.
pub proof fn lemma_who_is_found(
    b: BeaconsView,
    data: Seq<u8>,
    our_key: PublicKey,
    linked: Seq<PublicKey>,
    scope: u32,
    i: int,
)
    requires
        0 <= i < b.interfaces.len() <= usize::MAX,
        b.interfaces[i].index == scope,
        b.interfaces[i].listen,
        forall|j: int|
            0 <= j < i ==> !((#[trigger] b.interfaces[j]).index == scope && b.interfaces[j].listen),
    ensures
        neighbour(b, data, our_key, linked, scope) == (match parse_ad(data) {
            Ok(a) => if a.major_version == PROTOCOL_VERSION_MAJOR && a.minor_version
                == PROTOCOL_VERSION_MINOR && a.public_key != our_key && !linked.contains(a.public_key)
                && a.hash == password_hash(a.public_key@, b.interfaces[i].password) {
                Some(FoundPeer { interface: i as usize, key: a.public_key, port: a.port })
            } else {
                None
            },
            Err(_) => None,
        }),
{
    let p = listens_at(scope);
    lemma_first_index(b.interfaces, p);
    assert(p(b.interfaces[i]));
    let at = first_index(b.interfaces, p);
    if at < i {
        assert(p(b.interfaces[at]));
    }
}

/// On an interface on which we do not look nobody is found.
pub proof fn lemma_nobody_is_found_elsewhere(
    b: BeaconsView,
    data: Seq<u8>,
    our_key: PublicKey,
    linked: Seq<PublicKey>,
    scope: u32,
)
    requires
        forall|j: int|
            0 <= j < b.interfaces.len() ==> !((#[trigger] b.interfaces[j]).index == scope
                && b.interfaces[j].listen),
    ensures
        neighbour(b, data, our_key, linked, scope) is None,
{
    let p = listens_at(scope);
    lemma_first_index(b.interfaces, p);
    let at = first_index(b.interfaces, p);
    if at < b.interfaces.len() {
        assert(p(b.interfaces[at]));
    }
}

/// Listeners stay exactly on the interfaces that are in use, and those on others are told to stop.
pub proof fn lemma_listeners_follow_the_interfaces(
    l: Seq<(Seq<char>, u16)>,
    s: Seq<StateView>,
    i: int,
)
    requires
        0 <= i < l.len(),
    ensures
        ({
            let used = exists|k: int| 0 <= k < s.len() && (#[trigger] s[k]).name == l[i].0;
            &&& used ==> listeners_on(l, s).contains(l[i])
            &&& !used ==> listeners_off(l, s).contains(l[i].0)
        }),
    decreases l.len(),
{
    let d = l.drop_last();
    let on = listeners_on(l, s);
    let off = listeners_off(l, s);
    lemma_first_index(s, state_named(l[i].0));
    let at = place_of(s, l[i].0);
    if at < s.len() {
        assert(state_named(l[i].0)(s[at]));
        assert(s[at].name == l[i].0);
    }
    if exists|k: int| 0 <= k < s.len() && (#[trigger] s[k]).name == l[i].0 {
        let k = choose|k: int| 0 <= k < s.len() && (#[trigger] s[k]).name == l[i].0;
        assert(state_named(l[i].0)(s[k]));
    }
    if i < d.len() {
        assert(d[i] == l[i]);
        lemma_listeners_follow_the_interfaces(d, s, i);
        let don = listeners_on(d, s);
        let doff = listeners_off(d, s);
        if don.contains(l[i]) {
            let k = choose|k: int| 0 <= k < don.len() && don[k] == l[i];
            assert(on[k] == l[i]);
        }
        if doff.contains(l[i].0) {
            let k = choose|k: int| 0 <= k < doff.len() && doff[k] == l[i].0;
            assert(off[k] == l[i].0);
        }
    } else if at < s.len() {
        assert(on[on.len() - 1] == l[i]);
    } else {
        assert(off[off.len() - 1] == l[i].0);
    }
}

/// An interface needs a listener if and only if it advertises, has an address, and none of the
/// listeners is on it.
pub proof fn lemma_who_needs_a_listener(b: BeaconsView, s: StateView)
    ensures
        needs_listener(b, s) <==> s.beacon && s.addrs.len() > 0 && forall|i: int|
            0 <= i < b.listeners.len() ==> (#[trigger] b.listeners[i]).0 != s.name,
{
    let p = listener_named(s.name);
    crate::seqs::lemma_first_index(b.listeners, p);
    let at = first_index(b.listeners, p);
    if at < b.listeners.len() {
        assert(p(b.listeners[at]));
    } else {
        assert forall|i: int| 0 <= i < b.listeners.len() implies (#[trigger] b.listeners[i]).0
            != s.name by {
            assert(!p(b.listeners[i]));
        }
    }
}

/// After a round of advertisements every interface that was due has sent one now and waits a second
/// longer than before, up to fifteen; every other interface, and all else, is as it was.
pub proof fn lemma_what_a_round_changes(b: BeaconsView, now: u64, i: int)
    requires
        0 <= i < b.interfaces.len(),
    ensures
        ({
            let after = after_ads(b, now);
            let s = b.interfaces[i];
            let t = after.interfaces[i];
            let listening = exists|j: int|
                0 <= j < b.listeners.len() && (#[trigger] b.listeners[j]).0 == s.name;
            let due = s.last_beacon matches Some(at) ==> at + s.beacon_interval * 1_000_000_000
                <= now || s.beacon_interval == 0;
            &&& after.interfaces.len() == b.interfaces.len()
            &&& after.listeners == b.listeners
            &&& s.beacon && listening && due ==> {
                &&& t.last_beacon == Some(now)
                &&& s.beacon_interval < 15 ==> t.beacon_interval == s.beacon_interval + 1
                &&& s.beacon_interval >= 15 ==> t.beacon_interval == s.beacon_interval
                &&& t.name == s.name && t.index == s.index && t.addrs == s.addrs && t.hash == s.hash
            }
            &&& !(s.beacon && listening && due) ==> t == s
        }),
{
    let s = b.interfaces[i];
    let p = listener_named(s.name);
    crate::seqs::lemma_first_index(b.listeners, p);
    let at = first_index(b.listeners, p);
    if at < b.listeners.len() {
        assert(p(b.listeners[at]));
        assert(b.listeners[at].0 == s.name);
    } else {
        assert forall|j: int| 0 <= j < b.listeners.len() implies (#[trigger] b.listeners[j]).0
            != s.name by {
            assert(!p(b.listeners[j]));
        }
    }
}

/// An interface has the number that the host gives with the first of its addresses that can be used.
pub proof fn lemma_interfaces_have_their_numbers(raw: Seq<RawView>, k: int)
    requires
        0 <= k < grouped(raw).len(),
    ensures
        exists|i: int|
            {
                &&& 0 <= i < raw.len()
                &&& (#[trigger] raw[i]).name == grouped(raw)[k].name
                &&& raw[i].index == grouped(raw)[k].index
                &&& raw[i].addr matches Some(a) && can_find(raw[i], a) && grouped(raw)[k].addrs[0] == a
                &&& forall|j: int, b: [u8; 16]|
                    0 <= j < i && (#[trigger] raw[j]).name == raw[i].name ==> !#[trigger] can_find(
                        raw[j],
                        b,
                    )
            },
    decreases raw.len(),
{
    let d = raw.drop_last();
    let rest = grouped(d);
    let last = raw.last();
    let now = grouped(raw);
    let n = raw.len() - 1;
    lemma_first_index(rest, if_named(last.name));
    lemma_grouped_distinct(d);
    let at = first_index(rest, if_named(last.name));
    assert(raw[n] == last);
    if k < rest.len() {
        lemma_interfaces_have_their_numbers(d, k);
        let i = choose|i: int|
            {
                &&& 0 <= i < d.len()
                &&& (#[trigger] d[i]).name == rest[k].name
                &&& d[i].index == rest[k].index
                &&& d[i].addr matches Some(a) && can_find(d[i], a) && rest[k].addrs[0] == a
                &&& forall|j: int, b: [u8; 16]|
                    0 <= j < i && (#[trigger] d[j]).name == d[i].name ==> !#[trigger] can_find(
                        d[j],
                        b,
                    )
            };
        assert(raw[i] == d[i]);
        assert(rest[k].addrs.len() > 0);
        assert(now[k].addrs[0] == rest[k].addrs[0]);
        assert forall|j: int, b: [u8; 16]|
            0 <= j < i && (#[trigger] raw[j]).name == raw[i].name implies !#[trigger] can_find(
            raw[j],
            b,
        ) by {
            assert(d[j] == raw[j]);
        }
    } else {
        let a = usable(last)->0;
        assert(can_find(raw[n], a));
        assert forall|j: int, b: [u8; 16]|
            0 <= j < n && (#[trigger] raw[j]).name == raw[n].name implies !#[trigger] can_find(
            raw[j],
            b,
        ) by {
            if can_find(raw[j], b) {
                assert(d[j] == raw[j]);
                lemma_interfaces_have_their_addresses(d, last.name, b);
                let q = choose|q: int|
                    0 <= q < rest.len() && (#[trigger] rest[q]).name == last.name
                        && rest[q].addrs.contains(b);
                assert(!if_named(last.name)(rest[q]));
            }
        }
    }
}

/// An interface that stays takes over its addresses and its number from the host, and is otherwise as
/// it was: what it says and hears, under which password, and when it last advertised itself.
pub proof fn lemma_kept_interface_is_as_it_was(b: BeaconsView, new: Seq<StateView>, i: int, j: int)
    requires
        0 <= i < b.interfaces.len(),
        0 <= j < new.len(),
        new[j].name == b.interfaces[i].name,
        forall|m: int| 0 <= m < j ==> (#[trigger] new[m]).name != new[j].name,
    ensures
        refreshed(b, new).interfaces.contains(
            StateView { addrs: new[j].addrs, index: new[j].index, ..b.interfaces[i] },
        ),
{
    let old = b.interfaces;
    let name = old[i].name;
    assert(place_of(new, name) == j) by {
        let p = state_named(name);
        assert(p(new[j]));
        assert forall|m: int| 0 <= m < j implies !p(#[trigger] new[m]) by {}
        crate::seqs::lemma_first_index_at(new, p, j);
    }
    lemma_survivor(old, new, i);
    let x = StateView { addrs: new[j].addrs, index: new[j].index, ..old[i] };
    let sv = survivors(old, new);
    let k = choose|k: int| 0 <= k < sv.len() && sv[k] == x;
    assert(refreshed(b, new).interfaces[k] == x);
}

/// No other listener is kept and no other is given up: one that is kept was there and its interface is
/// in use, and one that is given up was there and its interface is not.
pub proof fn lemma_no_other_listeners(l: Seq<(Seq<char>, u16)>, s: Seq<StateView>)
    ensures
        forall|m: int|
            0 <= m < listeners_on(l, s).len() ==> l.contains(#[trigger] listeners_on(l, s)[m])
                && exists|k: int|
                0 <= k < s.len() && (#[trigger] s[k]).name == listeners_on(l, s)[m].0,
        forall|m: int|
            0 <= m < listeners_off(l, s).len() ==> (exists|i: int|
                0 <= i < l.len() && (#[trigger] l[i]).0 == #[trigger] listeners_off(l, s)[m])
                && forall|k: int|
                0 <= k < s.len() ==> (#[trigger] s[k]).name != listeners_off(l, s)[m],
    decreases l.len(),
{
    if l.len() > 0 {
        let d = l.drop_last();
        let name = l.last().0;
        lemma_no_other_listeners(d, s);
        let (on, off) = (listeners_on(d, s), listeners_off(d, s));
        let (all_on, all_off) = (listeners_on(l, s), listeners_off(l, s));
        let p = state_named(name);
        lemma_first_index(s, p);
        let at = place_of(s, name);
        assert(l[l.len() - 1] == l.last());
        assert forall|m: int| 0 <= m < all_on.len() implies l.contains(#[trigger] all_on[m])
            && exists|k: int| 0 <= k < s.len() && (#[trigger] s[k]).name == all_on[m].0 by {
            if m < on.len() {
                assert(all_on[m] == on[m]);
                assert(d.contains(on[m]));
                let i = choose|i: int| 0 <= i < d.len() && d[i] == on[m];
                assert(l[i] == on[m]);
            } else {
                assert(p(s[at]));
                assert(s[at].name == name);
            }
        }
        assert forall|m: int| 0 <= m < all_off.len() implies (exists|i: int|
            0 <= i < l.len() && (#[trigger] l[i]).0 == #[trigger] all_off[m]) && forall|k: int|
            0 <= k < s.len() ==> (#[trigger] s[k]).name != all_off[m] by {
            if m < off.len() {
                assert(all_off[m] == off[m]);
                let i = choose|i: int| 0 <= i < d.len() && (#[trigger] d[i]).0 == off[m];
                assert(l[i] == d[i]);
            } else {
                assert forall|k: int| 0 <= k < s.len() implies (#[trigger] s[k]).name
                    != all_off[m] by {
                    assert(!p(s[k]));
                }
            }
        }
    }
}

/// Advertisements go out in the order of the interfaces, one for each that is due: those of one more
/// interface are those before it and then its own.
pub proof fn lemma_one_advertisement_each(b: BeaconsView, key: PublicKey, now: u64, n: nat)
    requires
        n < b.interfaces.len(),
    ensures
        ({
            let s = b.interfaces[n as int];
            let before = ads_due(b, key, now, n);
            let after = ads_due(b, key, now, n + 1);
            let due = s.last_beacon matches Some(t) ==> t + s.beacon_interval * 1_000_000_000 <= now
                || s.beacon_interval == 0;
            &&& after.take(before.len() as int) == before
            &&& after.len() == before.len() + (if s.beacon && due && port_of(b.listeners, s.name) is Some {
                1int
            } else {
                0
            })
            &&& after.len() > before.len() ==> after.last().0 == s.index && (s.hash.len() < 0x1_0000
                ==> parse_ad(after.last().1) == Ok::<AdView, AdError>(
                AdView {
                    major_version: PROTOCOL_VERSION_MAJOR,
                    minor_version: PROTOCOL_VERSION_MINOR,
                    public_key: key,
                    port: port_of(b.listeners, s.name)->0,
                    hash: s.hash,
                },
            ))
        }),
{
    let s = b.interfaces[n as int];
    let before = ads_due(b, key, now, n);
    let after = ads_due(b, key, now, n + 1);
    assert(after.take(before.len() as int) =~= before);
    if sends(b, s, now) && s.hash.len() < 0x1_0000 {
        let a = ad_of(b, s, key);
        lemma_ad_round_trip(a, Seq::empty());
        assert(ad_bytes(a) + Seq::<u8>::empty() =~= ad_bytes(a));
    }
}

/// What is shown of an interface is what it does, with the port that is listened on, and zero where
/// none is; of its password only whether it has one.
pub proof fn lemma_what_is_shown_of_an_interface(b: BeaconsView, s: StateView, i: int)
    ensures
        info_of(b, s).name == s.name,
        info_of(b, s).beacon == s.beacon,
        info_of(b, s).listen == s.listen,
        info_of(b, s).password <==> s.password.len() != 0,
        0 <= i < b.listeners.len() && b.listeners[i].0 == s.name && (forall|j: int|
            0 <= j < i ==> (#[trigger] b.listeners[j]).0 != s.name) ==> info_of(b, s).port
            == b.listeners[i].1,
        (forall|j: int| 0 <= j < b.listeners.len() ==> (#[trigger] b.listeners[j]).0 != s.name)
            ==> info_of(b, s).port == 0,
{
    let p = listener_named(s.name);
    let l = b.listeners;
    lemma_first_index(l, p);
    if 0 <= i < l.len() && l[i].0 == s.name && (forall|j: int|
        0 <= j < i ==> (#[trigger] l[j]).0 != s.name) {
        assert(p(l[i]));
        assert forall|j: int| 0 <= j < i implies !p(#[trigger] l[j]) by {}
        crate::seqs::lemma_first_index_at(l, p, i);
    }
    if first_index(l, p) < l.len() {
        assert(p(l[first_index(l, p)]));
    }
}

} // verus!
