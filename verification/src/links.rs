//! Links to other nodes: the handshake, the links that are up, and when one is tried again.
use vstd::prelude::*;
use vstd::string::StringExecFns;
use crate::bans::{banned, failed, looked_up, BanList, FailedAttempt};
use crate::bytes::{key_eq, PublicKey};
use crate::config::{allowed_among, lemma_keys_among};
use crate::crypto::ed25519_public;
use crate::hashes::MAX_PASSWORD_LEN;
use crate::nets::Ip;
use crate::table::{
    del, distinct, get, has_key, kept, lemma_del, lemma_find, lemma_kept, lemma_put, mapped, put,
    KeyTable,
};
use crate::texts::key_of_hex;
use crate::traffic::elapsed;
use crate::uris::{LinkOptions, OptionsView};
use crate::version::{
    meta_bytes, parse_meta, parse_meta_body, parse_meta_header, Metadata, VersionError,
    PROTOCOL_VERSION_MAJOR, PROTOCOL_VERSION_MINOR,
};

verus! {

/// How long a handshake may take, in nanoseconds.
pub const HANDSHAKE_TIMEOUT: u64 = 6_000_000_000;

/// How long making a connection may take, in nanoseconds.
pub const DIAL_TIMEOUT: u64 = 5_000_000_000;

/// How many incoming connections are handled at a time.
pub const MAX_CONCURRENT_INCOMING: usize = 350;

/// How a link came about.
#[derive(Clone, Copy, Debug, PartialEq, Eq, Structural)]
pub enum LinkType {
    Persistent,
    Ephemeral,
    Incoming,
}

// ---------------------------------------------------------------------------
// The handshake
// ---------------------------------------------------------------------------

/// What a handshake goes by.
pub struct LinkSetup {
    pub link_type: LinkType,
    pub options: LinkOptions,
    /// The secret key of our node.
    pub secret: [u8; 32],
    /// The public key of our node.
    pub our_key: PublicKey,
    /// The only keys that may link to us, unless all may.
    pub allowed: Option<Vec<PublicKey>>,
    /// The host at the other end, if it is known.
    pub peer_ip: Option<Ip>,
}

/// The view of what a handshake goes by.
#[verifier::ext_equal]
pub struct SetupView {
    pub link_type: LinkType,
    pub options: OptionsView,
    pub secret: [u8; 32],
    pub our_key: PublicKey,
    pub allowed: Option<Seq<PublicKey>>,
    pub peer_ip: Option<Ip>,
}

impl View for LinkSetup {
    type V = SetupView;

    open spec fn view(&self) -> SetupView {
        SetupView {
            link_type: self.link_type,
            options: self.options@,
            secret: self.secret,
            our_key: self.our_key,
            allowed: keys_view(self.allowed),
            peer_ip: self.peer_ip,
        }
    }
}

/// The view of keys, if there are any.
pub open spec fn keys_view(keys: Option<Vec<PublicKey>>) -> Option<Seq<PublicKey>> {
    match keys {
        None => None,
        Some(k) => Some(k@),
    }
}

/// What happens in a handshake.
pub enum LinkEvent {
    /// The connection was made.
    Opened,
    /// The header of the other node's metadata was read.
    Header([u8; 6]),
    /// The rest of it was read.
    Body(Vec<u8>),
    /// Reading or writing failed.
    Failed,
    /// It took too long.
    TimedOut,
}

/// The view of an event.
#[verifier::ext_equal]
pub enum EventView {
    Opened,
    Header(Seq<u8>),
    Body(Seq<u8>),
    Failed,
    TimedOut,
}

impl View for LinkEvent {
    type V = EventView;

    open spec fn view(&self) -> EventView {
        match *self {
            LinkEvent::Opened => EventView::Opened,
            LinkEvent::Header(h) => EventView::Header(h@),
            LinkEvent::Body(b) => EventView::Body(b@),
            LinkEvent::Failed => EventView::Failed,
            LinkEvent::TimedOut => EventView::TimedOut,
        }
    }
}

/// Why a link is refused.
#[derive(Clone, Copy, Debug, PartialEq, Eq, Structural)]
pub enum Refusal {
    /// The host is shut out.
    Banned,
    /// Reading or writing failed.
    Io,
    /// The handshake took too long.
    TimedOut,
    /// The metadata is not acceptable.
    Metadata(VersionError),
    /// The other node is ourselves.
    Ourselves,
    /// The other node has none of the pinned keys.
    NotPinned,
    /// The other node may not link to us.
    NotAllowed,
}

/// What is to be done next in a handshake.
pub enum LinkAction {
    /// Write our metadata, then read the header of the other node's.
    Exchange(Vec<u8>),
    /// Read that many bytes.
    ReadBody(usize),
    /// The link is up.
    Join { key: PublicKey, priority: u8, inbound: bool },
    /// Close the connection.
    Refuse(Refusal),
}

/// The view of an action.
#[verifier::ext_equal]
pub enum LinkActionView {
    Exchange(Seq<u8>),
    ReadBody(nat),
    Join { key: PublicKey, priority: u8, inbound: bool },
    Refuse(Refusal),
}

impl View for LinkAction {
    type V = LinkActionView;

    open spec fn view(&self) -> LinkActionView {
        match *self {
            LinkAction::Exchange(d) => LinkActionView::Exchange(d@),
            LinkAction::ReadBody(n) => LinkActionView::ReadBody(n as nat),
            LinkAction::Join { key, priority, inbound } => LinkActionView::Join {
                key,
                priority,
                inbound,
            },
            LinkAction::Refuse(r) => LinkActionView::Refuse(r),
        }
    }
}

/// The list of hosts that failed.
pub type Bans = Seq<(Ip, FailedAttempt)>;

/// The list after a failure of the host at the other end.
pub open spec fn blamed(link: SetupView, bans: Bans, now: u64) -> Bans {
    match link.peer_ip {
        None => bans,
        Some(ip) => put(bans, ip, failed(get(bans, ip), now)),
    }
}

/// Whether a node may link to us: all may, or those of a list, which may be empty.
pub open spec fn key_allowed(allowed: Option<Seq<PublicKey>>, key: PublicKey) -> bool {
    allowed matches Some(k) ==> k.contains(key)
}

/// What becomes of a link with a node of the given metadata. A version that we do not accept and
/// a key that may not link to us count as failures of the host.
pub open spec fn judged(link: SetupView, m: Metadata, bans: Bans, now: u64) -> (
    Bans,
    LinkActionView,
) {
    let inbound = link.link_type == LinkType::Incoming;
    if !(m.major_ver == PROTOCOL_VERSION_MAJOR && m.minor_ver >= PROTOCOL_VERSION_MINOR) {
        (
            blamed(link, bans, now),
            LinkActionView::Refuse(
                Refusal::Metadata(VersionError::IncompatibleVersion(m.major_ver, m.minor_ver)),
            ),
        )
    } else if m.public_key == link.our_key {
        (bans, LinkActionView::Refuse(Refusal::Ourselves))
    } else if link.options.pinned_keys.len() > 0 && !link.options.pinned_keys.contains(
        m.public_key,
    ) {
        (bans, LinkActionView::Refuse(Refusal::NotPinned))
    } else if inbound && !key_allowed(link.allowed, m.public_key) {
        (blamed(link, bans, now), LinkActionView::Refuse(Refusal::NotAllowed))
    } else {
        (
            bans,
            LinkActionView::Join {
                key: m.public_key,
                priority: if link.options.priority >= m.priority {
                    link.options.priority
                } else {
                    m.priority
                },
                inbound,
            },
        )
    }
}

/// Our metadata on a link.
pub open spec fn our_metadata(link: SetupView) -> Metadata {
    Metadata {
        major_ver: PROTOCOL_VERSION_MAJOR,
        minor_ver: PROTOCOL_VERSION_MINOR,
        public_key: link.our_key,
        priority: link.options.priority,
    }
}

/// One step of a handshake.
pub open spec fn handshake(link: SetupView, event: EventView, bans: Bans, now: u64) -> (
    Bans,
    LinkActionView,
) {
    match event {
        EventView::Opened => {
            let (after, shut_out) = match link.peer_ip {
                None => (bans, false),
                Some(ip) => (looked_up(bans, ip, now), banned(bans, ip, now)),
            };
            (
                after,
                if shut_out {
                    LinkActionView::Refuse(Refusal::Banned)
                } else {
                    LinkActionView::Exchange(
                        meta_bytes(our_metadata(link), link.secret, link.options.password),
                    )
                },
            )
        },
        EventView::Header(h) => (
            bans,
            match parse_meta_header(h) {
                Ok(n) => LinkActionView::ReadBody(n),
                Err(e) => LinkActionView::Refuse(Refusal::Metadata(e)),
            },
        ),
        EventView::Body(b) => if b.len() < 64 {
            (bans, LinkActionView::Refuse(Refusal::Metadata(VersionError::TooShort)))
        } else {
            match parse_meta_body(b, link.options.password) {
                Ok(m) => judged(link, m, bans, now),
                Err(e) => (bans, LinkActionView::Refuse(Refusal::Metadata(e))),
            }
        },
        EventView::Failed => (bans, LinkActionView::Refuse(Refusal::Io)),
        EventView::TimedOut => (bans, LinkActionView::Refuse(Refusal::TimedOut)),
    }
}

/// Whether a list has a key.
pub fn has_public_key(keys: &Vec<PublicKey>, key: &PublicKey) -> (r: bool)
    ensures
        r == keys@.contains(*key),
{
    let mut i: usize = 0;
    while i < keys.len()
        invariant
            i <= keys@.len(),
            forall|j: int| 0 <= j < i ==> keys@[j] != *key,
        decreases keys@.len() - i,
    {
        if key_eq(&keys[i], key) {
            assert(keys@[i as int] == *key);
            return true;
        }
        i = i + 1;
    }
    false
}

/// Whether a node may link to us.
pub fn is_key_allowed(allowed: &Option<Vec<PublicKey>>, key: &PublicKey) -> (r: bool)
    ensures
        r == key_allowed(keys_view(*allowed), *key),
{
    match allowed {
        None => true,
        Some(k) => has_public_key(k, key),
    }
}

impl LinkSetup {
    /// The password can key a hash.
    pub open spec fn wf(&self) -> bool {
        self.options@.password.len() <= MAX_PASSWORD_LEN
    }

    fn blame(&self, bans: &mut BanList, now: u64)
        requires
            old(bans).wf(),
        ensures
            final(bans).wf(),
            final(bans)@ == blamed(self@, old(bans)@, now),
    {
        if let Some(ip) = self.peer_ip {
            let _ = bans.record_failure(ip, now);
        }
    }

    /// What becomes of a link with a node of the given metadata.
    pub fn judge(&self, m: &Metadata, bans: &mut BanList, now: u64) -> (r: LinkAction)
        requires
            old(bans).wf(),
        ensures
            final(bans).wf(),
            (final(bans)@, r@) == judged(self@, *m, old(bans)@, now),
    {
        if !m.check() {
            self.blame(bans, now);
            return LinkAction::Refuse(
                Refusal::Metadata(VersionError::IncompatibleVersion(m.major_ver, m.minor_ver)),
            );
        }
        if key_eq(&m.public_key, &self.our_key) {
            return LinkAction::Refuse(Refusal::Ourselves);
        }
        if self.options.pinned_keys.len() > 0 && !has_public_key(
            &self.options.pinned_keys,
            &m.public_key,
        ) {
            return LinkAction::Refuse(Refusal::NotPinned);
        }
        let inbound = self.link_type == LinkType::Incoming;
        if inbound && !is_key_allowed(&self.allowed, &m.public_key) {
            self.blame(bans, now);
            return LinkAction::Refuse(Refusal::NotAllowed);
        }
        let priority: u8 = if self.options.priority >= m.priority {
            self.options.priority
        } else {
            m.priority
        };
        LinkAction::Join { key: m.public_key, priority, inbound }
    }

    /// One step of a handshake. What we write reads back as our metadata.
    pub fn step(&self, event: &LinkEvent, bans: &mut BanList, now: u64) -> (r: LinkAction)
        requires
            self.wf(),
            old(bans).wf(),
        ensures
            final(bans).wf(),
            (final(bans)@, r@) == handshake(self@, event@, old(bans)@, now),
            self.our_key@ == ed25519_public(self.secret@) && r@ is Exchange ==> parse_meta(
                r@->Exchange_0,
                self.options@.password,
            ) == Ok::<Metadata, VersionError>(our_metadata(self@)),
    {
        match event {
            LinkEvent::Opened => {
                if let Some(ip) = self.peer_ip {
                    if bans.is_banned(ip, now) {
                        return LinkAction::Refuse(Refusal::Banned);
                    }
                }
                let meta = Metadata::new(self.our_key, self.options.priority);
                LinkAction::Exchange(meta.encode(&self.secret, self.options.password.as_slice()))
            },
            LinkEvent::Header(h) => match Metadata::decode_header(h) {
                Ok(n) => LinkAction::ReadBody(n),
                Err(e) => LinkAction::Refuse(Refusal::Metadata(e)),
            },
            LinkEvent::Body(b) => {
                if b.len() < 64 {
                    return LinkAction::Refuse(Refusal::Metadata(VersionError::TooShort));
                }
                match Metadata::decode_body(b.as_slice(), self.options.password.as_slice()) {
                    Ok(m) => self.judge(&m, bans, now),
                    Err(e) => LinkAction::Refuse(Refusal::Metadata(e)),
                }
            },
            LinkEvent::Failed => LinkAction::Refuse(Refusal::Io),
            LinkEvent::TimedOut => LinkAction::Refuse(Refusal::TimedOut),
        }
    }
}

/// A link only comes up with another node that we accept: one that speaks our protocol, has a
/// pinned key where keys are pinned, and may link to us where it came to us. The link has the
/// higher of both priorities.
pub proof fn lemma_join_is_accepted(link: SetupView, event: EventView, bans: Bans, now: u64)
    requires
        handshake(link, event, bans, now).1 is Join,
    ensures
        event is Body,
        parse_meta_body(event->Body_0, link.options.password) is Ok,
        ({
            let m = parse_meta_body(event->Body_0, link.options.password)->Ok_0;
            let a = handshake(link, event, bans, now).1;
            &&& a->key == m.public_key
            &&& a->key != link.our_key
            &&& m.major_ver == PROTOCOL_VERSION_MAJOR
            &&& m.minor_ver >= PROTOCOL_VERSION_MINOR
            &&& link.options.pinned_keys.len() > 0 ==> link.options.pinned_keys.contains(a->key)
            &&& link.link_type == LinkType::Incoming ==> key_allowed(link.allowed, a->key)
            &&& a->inbound == (link.link_type == LinkType::Incoming)
            &&& a->priority >= m.priority
            &&& a->priority >= link.options.priority
        }),
{
}

/// Where a configuration lists keys, a node that came to us is only linked to if its key is among
/// them, also where nothing on the list is a key; where it lists none, every node may link to us.
pub proof fn lemma_only_listed_keys_may_link(texts: Seq<String>, key: PublicKey)
    ensures
        key_allowed(allowed_among(texts), key) <==> texts.len() == 0 || exists|i: int|
            0 <= i < texts.len() && key_of_hex((#[trigger] texts[i])@) == Some(key@),
{
    lemma_keys_among(texts, key);
}

/// A host that is shut out gets nothing from us.
pub proof fn lemma_banned_is_refused(link: SetupView, bans: Bans, now: u64)
    requires
        link.peer_ip is Some,
        banned(bans, link.peer_ip->0, now),
    ensures
        handshake(link, EventView::Opened, bans, now) == (
            bans,
            LinkActionView::Refuse(Refusal::Banned),
        ),
{
}

// ---------------------------------------------------------------------------
// Links that are up
// ---------------------------------------------------------------------------

/// Something happened to a link.
#[derive(Clone, Debug)]
pub enum PeerEvent {
    Connected { key: PublicKey, uri: String, inbound: bool },
    Disconnected { key: PublicKey },
}

/// The view of such an event.
#[verifier::ext_equal]
pub enum PeerEventView {
    Connected { key: PublicKey, uri: Seq<char>, inbound: bool },
    Disconnected { key: PublicKey },
}

impl View for PeerEvent {
    type V = PeerEventView;

    open spec fn view(&self) -> PeerEventView {
        match *self {
            PeerEvent::Connected { key, uri, inbound } => PeerEventView::Connected {
                key,
                uri: uri@,
                inbound,
            },
            PeerEvent::Disconnected { key } => PeerEventView::Disconnected { key },
        }
    }
}

/// A link that is up.
pub struct ActiveConn {
    pub uri: String,
    pub inbound: bool,
    pub key: PublicKey,
    pub priority: u8,
    pub rx: u64,
    pub tx: u64,
    /// What was received and sent in the last second.
    pub rx_rate: u64,
    pub tx_rate: u64,
    pub last_rx: u64,
    pub last_tx: u64,
    /// Since when it is up.
    pub up: u64,
}

/// The view of a link.
#[verifier::ext_equal]
pub struct ConnView {
    pub uri: Seq<char>,
    pub inbound: bool,
    pub key: PublicKey,
    pub priority: u8,
    pub rx: u64,
    pub tx: u64,
    pub rx_rate: u64,
    pub tx_rate: u64,
    pub last_rx: u64,
    pub last_tx: u64,
    pub up: u64,
}

impl View for ActiveConn {
    type V = ConnView;

    open spec fn view(&self) -> ConnView {
        ConnView {
            uri: self.uri@,
            inbound: self.inbound,
            key: self.key,
            priority: self.priority,
            rx: self.rx,
            tx: self.tx,
            rx_rate: self.rx_rate,
            tx_rate: self.tx_rate,
            last_rx: self.last_rx,
            last_tx: self.last_tx,
            up: self.up,
        }
    }
}

/// The links that are up, by number.
pub struct ActiveLinksInner {
    pub next_id: u64,
    pub connections: KeyTable<u64, ActiveConn>,
}

/// The view of the links that are up.
#[verifier::ext_equal]
pub struct LinksView {
    pub next_id: u64,
    pub connections: Seq<(u64, ConnView)>,
}

/// The function from links to their views.
pub open spec fn conn_view() -> spec_fn(ActiveConn) -> ConnView {
    |c: ActiveConn| c@
}

impl View for ActiveLinksInner {
    type V = LinksView;

    open spec fn view(&self) -> LinksView {
        LinksView {
            next_id: self.next_id,
            connections: mapped(self.connections@, conn_view()),
        }
    }
}

/// The invariant: no number occurs twice, and all are below the next one.
pub open spec fn links_wf(l: LinksView) -> bool {
    &&& distinct(l.connections)
    &&& forall|k: u64| #[trigger] has_key(l.connections, k) ==> k < l.next_id
}

/// The links with one more.
pub open spec fn registered(
    l: LinksView,
    uri: Seq<char>,
    inbound: bool,
    key: PublicKey,
    priority: u8,
    now: u64,
) -> LinksView {
    LinksView {
        next_id: (l.next_id + 1) as u64,
        connections: put(
            l.connections,
            l.next_id,
            ConnView {
                uri,
                inbound,
                key,
                priority,
                rx: 0,
                tx: 0,
                rx_rate: 0,
                tx_rate: 0,
                last_rx: 0,
                last_tx: 0,
                up: now,
            },
        ),
    }
}

/// A link with what it received and sent so far.
pub open spec fn counted(c: ConnView, rx: u64, tx: u64) -> ConnView {
    ConnView { rx, tx, ..c }
}

/// A link with its rates: what came in and went out since the last time.
pub open spec fn rated(c: ConnView) -> ConnView {
    ConnView {
        rx_rate: elapsed(c.last_rx, c.rx),
        tx_rate: elapsed(c.last_tx, c.tx),
        last_rx: c.rx,
        last_tx: c.tx,
        ..c
    }
}

/// The links without those to an address.
pub open spec fn not_to(uri: Seq<char>) -> spec_fn(ConnView) -> bool {
    |c: ConnView| c.uri != uri
}

/// The keys of the links to an address.
pub open spec fn keys_to(e: Seq<(u64, ConnView)>, uri: Seq<char>) -> Seq<PeerEventView>
    decreases e.len(),
{
    if e.len() == 0 {
        Seq::empty()
    } else {
        let rest = keys_to(e.drop_last(), uri);
        if e.last().1.uri == uri {
            rest.push(PeerEventView::Disconnected { key: e.last().1.key })
        } else {
            rest
        }
    }
}

/// The views of events.
pub open spec fn event_views(v: Seq<PeerEvent>) -> Seq<PeerEventView> {
    v.map_values(|e: PeerEvent| e@)
}

impl ActiveLinksInner {
    /// The invariant.
    pub open spec fn wf(&self) -> bool {
        links_wf(self@)
    }

    proof fn lemma_wf(&self)
        requires
            self.wf(),
        ensures
            self.connections.wf(),
    {
        let e = self.connections@;
        let m = mapped(e, conn_view());
        assert forall|i: int, j: int| 0 <= i < j < e.len() implies (#[trigger] e[i]).0 != (
        #[trigger] e[j]).0 by {
            assert(m[i].0 == e[i].0);
            assert(m[j].0 == e[j].0);
        }
    }

    /// No links.
    pub fn new() -> (r: Self)
        ensures
            r.wf(),
            r@ == (LinksView { next_id: 0, connections: Seq::empty() }),
    {
        let r = ActiveLinksInner { next_id: 0, connections: KeyTable::new() };
        assert(r@.connections =~= Seq::empty());
        r
    }

    /// Takes up a link. Gives its number, and the event.
    pub fn register(
        &mut self,
        uri: &String,
        inbound: bool,
        key: PublicKey,
        priority: u8,
        now: u64,
    ) -> (r: (u64, PeerEvent))
        requires
            old(self).wf(),
            old(self)@.next_id < u64::MAX,
        ensures
            final(self).wf(),
            final(self)@ == registered(old(self)@, uri@, inbound, key, priority, now),
            r.0 == old(self)@.next_id,
            r.1@ == (PeerEventView::Connected { key, uri: uri@, inbound }),
            !has_key(old(self)@.connections, r.0),
    {
        let id: u64 = self.next_id;
        let conn = ActiveConn {
            uri: uri.clone(),
            inbound,
            key,
            priority,
            rx: 0,
            tx: 0,
            rx_rate: 0,
            tx_rate: 0,
            last_rx: 0,
            last_tx: 0,
            up: now,
        };
        proof {
            lemma_put(self@.connections, id, conn@);
            crate::table::lemma_mapped_put(self.connections@, conn_view(), id, conn);
            let l = self@;
            let after = put(l.connections, id, conn@);
            assert forall|k: u64| #[trigger] has_key(after, k) implies k < l.next_id + 1 by {
                if k != id {
                    assert(get(after, k) == get(l.connections, k));
                    lemma_find(after, k);
                    lemma_find(l.connections, k);
                }
            }
        }
        self.next_id = self.next_id + 1;
        self.connections.insert(id, conn);
        (id, PeerEvent::Connected { key, uri: uri.clone(), inbound })
    }

    /// Drops a link. Gives the event, if there was such a link.
    pub fn unregister(&mut self, id: u64) -> (r: Option<PeerEvent>)
        requires
            old(self).wf(),
        ensures
            final(self).wf(),
            final(self)@ == (LinksView {
                connections: del(old(self)@.connections, id),
                ..old(self)@
            }),
            match get(old(self)@.connections, id) {
                Some(c) => r matches Some(e) && e@ == (PeerEventView::Disconnected { key: c.key }),
                None => r is None,
            },
    {
        proof {
            let e = self@.connections;
            lemma_del(e, id);
            crate::table::lemma_mapped_del(self.connections@, conn_view(), id);
            crate::table::lemma_mapped_find(self.connections@, conn_view(), id);
            lemma_find(self.connections@, id);
            assert forall|k: u64| #[trigger] has_key(del(e, id), k) implies k
                < self@.next_id by {
                assert(get(del(e, id), k) is Some);
                assert(get(e, k) is Some);
                assert(has_key(e, k));
            }
        }
        match self.connections.remove(&id) {
            Some(c) => Some(PeerEvent::Disconnected { key: c.key }),
            None => None,
        }
    }

    /// Drops the links to an address. Gives the events.
    pub fn unregister_by_uri(&mut self, uri: &String) -> (r: Vec<PeerEvent>)
        requires
            old(self).wf(),
        ensures
            final(self).wf(),
            final(self)@ == (LinksView {
                connections: kept(old(self)@.connections, not_to(uri@)),
                ..old(self)@
            }),
            event_views(r@) == keys_to(old(self)@.connections, uri@),
    {
        proof {
            self.lemma_wf();
        }
        let mut r: Vec<PeerEvent> = Vec::new();
        let ghost t0 = self.connections@;
        let ghost m0 = self@.connections;
        let ghost p = |c: ActiveConn| not_to(uri@)(c@);
        let mut i: usize = 0;
        let ghost mut done: int = 0;
        assert(self.connections@ =~= kept(t0.take(0), p) + t0.skip(0));
        assert(event_views(r@) =~= keys_to(m0.take(0), uri@));
        while i < self.connections.len()
            invariant
                0 <= done <= t0.len(),
                i == kept(t0.take(done), p).len(),
                self.connections@ == kept(t0.take(done), p) + t0.skip(done),
                self.connections.wf(),
                self.next_id == old(self).next_id,
                p == (|c: ActiveConn| not_to(uri@)(c@)),
                m0 == mapped(t0, conn_view()),
                event_views(r@) == keys_to(m0.take(done), uri@),
            decreases t0.len() - done,
        {
            proof {
                assert(done < t0.len());
                assert(t0.take(done + 1).drop_last() =~= t0.take(done));
                assert(m0.take(done + 1).drop_last() =~= m0.take(done));
                assert(self.connections@[i as int] == t0[done]);
                assert(m0[done].1 == t0[done].1@);
            }
            let hit: bool = self.connections.value_at(i).uri == *uri;
            let ghost events = event_views(r@);
            if hit {
                let c = self.connections.remove_at(i);
                let ghost e = (PeerEventView::Disconnected { key: c.key });
                r.push(PeerEvent::Disconnected { key: c.key });
                assert(event_views(r@) =~= events.push(e));
            } else {
                i = i + 1;
            }
            assert(self.connections@ =~= kept(t0.take(done + 1), p) + t0.skip(done + 1));
            proof {
                done = done + 1;
            }
        }
        proof {
            assert(t0.take(done) =~= t0);
            assert(m0.take(done) =~= m0);
            assert(self.connections@ =~= kept(t0, p));
            crate::table::lemma_mapped_kept(t0, conn_view(), not_to(uri@));
            assert(p =~= (|v: ActiveConn| not_to(uri@)(conn_view()(v))));
            lemma_kept(m0, not_to(uri@));
            let after = kept(m0, not_to(uri@));
            assert forall|k: u64| #[trigger] has_key(after, k) implies k < self.next_id by {
                assert(get(after, k) is Some);
                assert(get(m0, k) is Some);
                assert(has_key(m0, k));
            }
        }
        r
    }

    /// Takes note of what a link has received and sent so far.
    pub fn set_counts(&mut self, id: u64, rx: u64, tx: u64)
        requires
            old(self).wf(),
        ensures
            final(self).wf(),
            match get(old(self)@.connections, id) {
                Some(c) => final(self)@ == (LinksView {
                    connections: put(old(self)@.connections, id, counted(c, rx, tx)),
                    ..old(self)@
                }),
                None => final(self)@ == old(self)@,
            },
    {
        proof {
            crate::table::lemma_mapped_find(self.connections@, conn_view(), id);
            lemma_find(self.connections@, id);
        }
        if let Some(at) = self.connections.position(&id) {
            let ghost before = self@.connections;
            let ghost c = before[at as int].1;
            let conn = self.connections.value_at_mut(at);
            conn.rx = rx;
            conn.tx = tx;
            proof {
                lemma_put(before, id, counted(c, rx, tx));
                assert(self@.connections =~= before.update(at as int, (id, counted(c, rx, tx))));
                let after = self@.connections;
                assert forall|k: u64| #[trigger] has_key(after, k) implies k < self.next_id by {
                    assert(get(after, k) is Some);
                    if k != id {
                        assert(get(before, k) is Some);
                    }
                    assert(has_key(before, k));
                }
            }
        }
    }

    /// Works out the rates of all links, once a second.
    pub fn update_rates(&mut self)
        requires
            old(self).wf(),
        ensures
            final(self).wf(),
            final(self)@ == (LinksView {
                connections: mapped(old(self)@.connections, |c: ConnView| rated(c)),
                ..old(self)@
            }),
    {
        let ghost m0 = self@.connections;
        let ghost f = |c: ConnView| rated(c);
        let mut i: usize = 0;
        while i < self.connections.len()
            invariant
                i <= self.connections@.len(),
                self.connections@.len() == m0.len(),
                self.next_id == old(self).next_id,
                f == (|c: ConnView| rated(c)),
                forall|j: int|
                    0 <= j < m0.len() ==> (#[trigger] self@.connections[j]) == (if j < i {
                        (m0[j].0, rated(m0[j].1))
                    } else {
                        m0[j]
                    }),
            decreases self.connections@.len() - i,
        {
            let ghost before = self@.connections;
            assert(before[i as int] == m0[i as int]);
            let conn = self.connections.value_at_mut(i);
            conn.rx_rate = conn.rx.saturating_sub(conn.last_rx);
            conn.tx_rate = conn.tx.saturating_sub(conn.last_tx);
            conn.last_rx = conn.rx;
            conn.last_tx = conn.tx;
            proof {
                assert(self@.connections =~= before.update(
                    i as int,
                    (m0[i as int].0, rated(m0[i as int].1)),
                ));
            }
            i = i + 1;
        }
        proof {
            let after = self@.connections;
            assert(after =~= mapped(m0, f));
            crate::table::lemma_mapped_distinct(m0, f);
            assert forall|k: u64| #[trigger] has_key(after, k) implies k < self.next_id by {
                crate::table::lemma_mapped_find(m0, f, k);
                assert(has_key(m0, k));
            }
        }
    }
}

/// The number of a new link is not that of any link before: none has it, and none gets it again.
pub proof fn lemma_numbers_not_reused(
    l: LinksView,
    uri: Seq<char>,
    inbound: bool,
    key: PublicKey,
    priority: u8,
    now: u64,
)
    requires
        links_wf(l),
        l.next_id < u64::MAX,
    ensures
        !has_key(l.connections, l.next_id),
        registered(l, uri, inbound, key, priority, now).next_id > l.next_id,
{
}

/// Dropping a link that was just taken up gives the links as they were, but for the next number.
pub proof fn lemma_register_then_unregister(
    l: LinksView,
    uri: Seq<char>,
    inbound: bool,
    key: PublicKey,
    priority: u8,
    now: u64,
)
    requires
        links_wf(l),
        l.next_id < u64::MAX,
    ensures
        del(registered(l, uri, inbound, key, priority, now).connections, l.next_id)
            == l.connections,
{
    let after = registered(l, uri, inbound, key, priority, now).connections;
    assert(!has_key(l.connections, l.next_id));
    lemma_find(l.connections, l.next_id);
    crate::table::lemma_find_at(after, l.next_id, l.connections.len() as int);
    assert(del(after, l.next_id) =~= l.connections);
}

/// After the links to an address were dropped, there is none.
pub proof fn lemma_none_left_to(l: LinksView, uri: Seq<char>, id: u64)
    requires
        links_wf(l),
    ensures
        get(kept(l.connections, not_to(uri)), id) matches Some(c) ==> c.uri != uri,
{
    lemma_kept(l.connections, not_to(uri));
}

// ---------------------------------------------------------------------------
// Trying again
// ---------------------------------------------------------------------------

/// How an attempt to link ended.
#[derive(Clone, Copy, Debug, PartialEq, Eq, Structural)]
pub enum Attempt {
    /// No connection was made.
    NotConnected,
    /// TLS could not be set up.
    TlsFailed,
    /// The link was up and ended without an error.
    Ended,
    /// The handshake failed, or the link ended with an error.
    Broken,
}

/// Two to the power of `n`.
pub open spec fn doubled(n: nat) -> nat
    decreases n,
{
    if n == 0 {
        1
    } else {
        2 * doubled((n - 1) as nat)
    }
}

/// How many attempts count after one more. A link that ended well starts anew.
pub open spec fn attempts_after(attempts: u32, a: Attempt) -> u32 {
    match a {
        Attempt::TlsFailed => if attempts >= 6 {
            7
        } else {
            (attempts + 1) as u32
        },
        Attempt::Ended => 1,
        _ => if attempts < 32 {
            (attempts + 1) as u32
        } else {
            attempts
        },
    }
}

/// How many seconds pass before the next attempt: twice as many each time, up to a limit.
pub open spec fn wait_after(attempts: u32, max_backoff: u64) -> u64 {
    let w = doubled(
        if attempts <= 7 {
            attempts as nat
        } else {
            7
        },
    );
    if w <= max_backoff {
        w as u64
    } else {
        max_backoff
    }
}

proof fn lemma_doubled_values()
    ensures
        doubled(0) == 1,
        doubled(1) == 2,
        doubled(2) == 4,
        doubled(3) == 8,
        doubled(4) == 16,
        doubled(5) == 32,
        doubled(6) == 64,
        doubled(7) == 128,
{
    reveal_with_fuel(doubled, 8);
}

/// After an attempt: how many count now, and how many seconds pass before the next.
pub fn next_attempt(attempts: u32, a: Attempt, max_backoff: u64) -> (r: (u32, u64))
    ensures
        r.0 == attempts_after(attempts, a),
        r.1 == wait_after(r.0, max_backoff),
{
    let n: u32 = match a {
        Attempt::TlsFailed => {
            if attempts >= 6 {
                7
            } else {
                attempts + 1
            }
        },
        Attempt::Ended => 1,
        _ => {
            if attempts < 32 {
                attempts + 1
            } else {
                attempts
            }
        },
    };
    proof {
        lemma_doubled_values();
    }
    let w: u64 = match n {
        0 => 1,
        1 => 2,
        2 => 4,
        3 => 8,
        4 => 16,
        5 => 32,
        6 => 64,
        _ => 128,
    };
    (
        n,
        if w <= max_backoff {
            w
        } else {
            max_backoff
        },
    )
}

/// The wait never exceeds the limit, nor a little over two minutes, and grows with the attempts.
pub proof fn lemma_wait_is_bounded(a: u32, b: u32, max_backoff: u64)
    requires
        a <= b,
    ensures
        wait_after(a, max_backoff) <= wait_after(b, max_backoff) <= max_backoff,
        wait_after(b, max_backoff) <= 128,
{
    lemma_doubled_values();
}

/// Every how many seconds hosts are forgotten that are not worth remembering.
pub const BAN_CLEANUP_TICKS: u32 = 60;

/// Counts seconds: gives the count, and whether it is time to forget hosts.
pub fn rate_tick(counter: u32) -> (r: (u32, bool))
    requires
        counter < BAN_CLEANUP_TICKS,
    ensures
        r.1 == (counter + 1 >= BAN_CLEANUP_TICKS),
        r.0 == (if r.1 {
            0
        } else {
            (counter + 1) as u32
        }),
        r.0 < BAN_CLEANUP_TICKS,
{
    if counter + 1 >= BAN_CLEANUP_TICKS {
        (0, true)
    } else {
        (counter + 1, false)
    }
}

// ---------------------------------------------------------------------------
// Counting bytes
// ---------------------------------------------------------------------------

/// How many bytes are counted aside before they are added up.
pub const FLUSH_THRESHOLD: u64 = 65536;

/// Counts bytes: those that are added up, and those that are not yet.
#[derive(Clone, Copy, Debug, PartialEq, Eq)]
pub struct ByteMeter {
    pub total: u64,
    pub pending: u64,
}

impl ByteMeter {
    /// The invariant: only a little is not added up, and the count has not run over.
    pub open spec fn wf(&self) -> bool {
        &&& self.pending < FLUSH_THRESHOLD
        &&& self.total + self.pending <= u64::MAX
    }

    /// How many bytes there were.
    pub open spec fn count(&self) -> int {
        self.total + self.pending
    }

    /// No bytes.
    pub fn new() -> (r: Self)
        ensures
            r.wf(),
            r.count() == 0,
    {
        ByteMeter { total: 0, pending: 0 }
    }

    /// Counts bytes. They are added up once they are many.
    pub fn add_bytes(&mut self, n: u64)
        requires
            old(self).wf(),
            old(self).count() + n <= u64::MAX,
        ensures
            final(self).wf(),
            final(self).count() == old(self).count() + n,
            *final(self) == (if old(self).pending + n >= FLUSH_THRESHOLD {
                ByteMeter { total: (old(self).count() + n) as u64, pending: 0 }
            } else {
                ByteMeter { total: old(self).total, pending: (old(self).pending + n) as u64 }
            }),
    {
        self.pending = self.pending + n;
        if self.pending >= FLUSH_THRESHOLD {
            self.flush();
        }
    }

    /// Adds up all bytes.
    pub fn flush(&mut self)
        requires
            old(self).total + old(self).pending <= u64::MAX,
        ensures
            final(self).wf(),
            final(self).pending == 0,
            final(self).count() == old(self).count(),
    {
        self.total = self.total + self.pending;
        self.pending = 0;
    }
}

/// Every node that we accept is linked to: one of our version or a later minor one, with a key other
/// than ours, which is any of the pinned keys where keys are pinned, and which may link to us where
/// it came to us. The link has the higher of both priorities, and nobody is blamed.
pub proof fn lemma_acceptable_node_joins(link: SetupView, m: Metadata, bans: Bans, now: u64)
    requires
        m.major_ver == PROTOCOL_VERSION_MAJOR,
        m.minor_ver >= PROTOCOL_VERSION_MINOR,
        m.public_key != link.our_key,
        link.options.pinned_keys.len() == 0 || exists|i: int|
            0 <= i < link.options.pinned_keys.len() && #[trigger] link.options.pinned_keys[i]
                == m.public_key,
        link.link_type != LinkType::Incoming || link.allowed is None || exists|i: int|
            0 <= i < link.allowed->0.len() && #[trigger] link.allowed->0[i] == m.public_key,
    ensures
        judged(link, m, bans, now) == (
            bans,
            LinkActionView::Join {
                key: m.public_key,
                priority: if m.priority > link.options.priority {
                    m.priority
                } else {
                    link.options.priority
                },
                inbound: link.link_type == LinkType::Incoming,
            },
        ),
{
}

/// Every other node is refused, for the first of these reasons that holds: its version, being
/// ourselves, a key that is not pinned, or a key that may not link to us. The first and the last are
/// held against its host.
pub proof fn lemma_other_nodes_are_refused(link: SetupView, m: Metadata, bans: Bans, now: u64)
    ensures
        ({
            let (after, action) = judged(link, m, bans, now);
            let version = m.major_ver == PROTOCOL_VERSION_MAJOR && m.minor_ver >= PROTOCOL_VERSION_MINOR;
            let ourselves = m.public_key == link.our_key;
            let pinned = link.options.pinned_keys.len() == 0 || link.options.pinned_keys.contains(
                m.public_key,
            );
            let may = link.link_type != LinkType::Incoming || (link.allowed matches Some(keys)
                ==> keys.contains(m.public_key));
            &&& !version ==> action == LinkActionView::Refuse(
                Refusal::Metadata(VersionError::IncompatibleVersion(m.major_ver, m.minor_ver)),
            )
            &&& version && ourselves ==> action == LinkActionView::Refuse(Refusal::Ourselves) && after
                == bans
            &&& version && !ourselves && !pinned ==> action == LinkActionView::Refuse(
                Refusal::NotPinned,
            ) && after == bans
            &&& version && !ourselves && pinned && !may ==> action == LinkActionView::Refuse(
                Refusal::NotAllowed,
            )
            &&& !version || (!ourselves && pinned && !may) ==> (link.peer_ip matches Some(ip) ==> get(
                after,
                ip,
            ) == Some(failed(get(bans, ip), now)))
            &&& link.peer_ip is None ==> after == bans
        }),
{
    if let Some(ip) = link.peer_ip {
        crate::table::lemma_put(bans, ip, failed(get(bans, ip), now));
    }
}

/// Two nodes that speak with each other link: what one sends when the connection is made lets the other
/// link to it, where both have one password, their keys differ, and the other accepts the key.
pub proof fn lemma_two_nodes_link(
    a: SetupView,
    b: SetupView,
    a_bans: Bans,
    b_bans: Bans,
    now: u64,
    later: u64,
)
    requires
        a.options.password == b.options.password,
        a.our_key != b.our_key,
        a.peer_ip matches Some(ip) ==> !banned(a_bans, ip, now),
        b.options.pinned_keys.len() == 0 || b.options.pinned_keys.contains(a.our_key),
        b.link_type != LinkType::Incoming || key_allowed(b.allowed, a.our_key),
        ({
            let h = crate::hashes::password_hash(a.our_key@, a.options.password);
            let sig = crate::crypto::ed25519_signature(a.secret@, h);
            sig.len() == 64 && crate::crypto::ed25519_accepts(a.our_key@, h, sig)
        }),
    ensures
        handshake(a, EventView::Opened, a_bans, now).1 matches LinkActionView::Exchange(data) && {
            &&& data.len() == 123
            &&& handshake(b, EventView::Header(data.take(6)), b_bans, later).1
                == LinkActionView::ReadBody(117)
            &&& handshake(b, EventView::Body(data.skip(6)), b_bans, later).1 matches LinkActionView::Join {
                key,
                priority,
                inbound,
            } && key == a.our_key && priority == (if a.options.priority > b.options.priority {
                a.options.priority
            } else {
                b.options.priority
            }) && inbound == (b.link_type == LinkType::Incoming)
        },
{
    let m = our_metadata(a);
    crate::version::lemma_metadata_survives_the_wire(m, a.secret, a.options.password);
}

/// A new link is there with what it was taken up with, and has carried nothing; all others are as they
/// were.
pub proof fn lemma_new_link_is_there(
    l: LinksView,
    uri: Seq<char>,
    inbound: bool,
    key: PublicKey,
    priority: u8,
    now: u64,
    id: u64,
)
    requires
        links_wf(l),
        l.next_id < u64::MAX,
    ensures
        ({
            let n = registered(l, uri, inbound, key, priority, now);
            &&& get(n.connections, l.next_id) matches Some(c) && c.uri == uri && c.inbound == inbound
                && c.key == key && c.priority == priority && c.up == now && c.rx == 0 && c.tx == 0
            &&& id != l.next_id ==> get(n.connections, id) == get(l.connections, id)
        }),
{
    let c = ConnView {
        uri,
        inbound,
        key,
        priority,
        rx: 0,
        tx: 0,
        rx_rate: 0,
        tx_rate: 0,
        last_rx: 0,
        last_tx: 0,
        up: now,
    };
    crate::table::lemma_put(l.connections, l.next_id, c);
    let n = registered(l, uri, inbound, key, priority, now);
    assert(get(n.connections, l.next_id) == Some(c));
    assert(get(n.connections, id) == (if id == l.next_id { Some(c) } else { get(l.connections, id) }));
}

/// Dropping the links to an address drops exactly those and tells of each, in order.
pub proof fn lemma_links_to_an_address_are_dropped(l: LinksView, uri: Seq<char>, id: u64)
    requires
        links_wf(l),
    ensures
        get(kept(l.connections, not_to(uri)), id) == (match get(l.connections, id) {
            Some(c) => if c.uri == uri {
                None
            } else {
                Some(c)
            },
            None => None,
        }),
        get(l.connections, id) matches Some(c) ==> (c.uri == uri ==> keys_to(l.connections, uri).contains(
            PeerEventView::Disconnected { key: c.key },
        )),
{
    lemma_kept(l.connections, not_to(uri));
    if let Some(c) = get(l.connections, id) {
        lemma_find(l.connections, id);
        if c.uri == uri {
            lemma_keys_to_has(l.connections, uri, crate::table::find(l.connections, id));
        }
    }
}

proof fn lemma_keys_to_has(e: Seq<(u64, ConnView)>, uri: Seq<char>, i: int)
    requires
        0 <= i < e.len(),
        e[i].1.uri == uri,
    ensures
        keys_to(e, uri).contains(PeerEventView::Disconnected { key: e[i].1.key }),
    decreases e.len(),
{
    let d = e.drop_last();
    let all = keys_to(e, uri);
    let x = PeerEventView::Disconnected { key: e[i].1.key };
    if i < d.len() {
        lemma_keys_to_has(d, uri, i);
        let rest = keys_to(d, uri);
        assert(d[i] == e[i]);
        let j = choose|j: int| 0 <= j < rest.len() && rest[j] == x;
        assert(all[j] == x);
    } else {
        assert(all[all.len() - 1] == x);
    }
}

/// The rate of a link is what came and went since it was looked at last, so that rates over time add up
/// to all that came and went.
pub proof fn lemma_rates_add_up(c: ConnView, rx: u64, tx: u64)
    requires
        c.last_rx <= rx,
        c.last_tx <= tx,
    ensures
        ({
            let r = rated(counted(c, rx, tx));
            &&& c.last_rx + r.rx_rate == rx && c.last_tx + r.tx_rate == tx
            &&& r.last_rx == rx && r.last_tx == tx && r.rx == rx && r.tx == tx
            &&& r.uri == c.uri && r.key == c.key && r.up == c.up
        }),
{
}

/// The wait doubles with each attempt that counts, from two seconds after the first, up to the limit;
/// a link that ended well starts anew, and every failure counts one more as long as that matters.
pub proof fn lemma_wait_doubles(attempts: u32, max_backoff: u64)
    ensures
        attempts < 7 && 2 * wait_after(attempts, u64::MAX) <= max_backoff ==> wait_after(
            (attempts + 1) as u32,
            max_backoff,
        ) == 2 * wait_after(attempts, u64::MAX),
        wait_after(1, u64::MAX) == 2,
        attempts >= 7 ==> wait_after(attempts, u64::MAX) == 128,
        max_backoff <= 1 ==> wait_after(attempts, max_backoff) == max_backoff,
        attempts_after(attempts, Attempt::Ended) == 1,
        attempts < 7 ==> attempts_after(attempts, Attempt::NotConnected) == attempts + 1
            && attempts_after(attempts, Attempt::Broken) == attempts + 1 && attempts_after(
            attempts,
            Attempt::TlsFailed,
        ) == attempts + 1,
        attempts >= 7 ==> attempts_after(attempts, Attempt::NotConnected) >= 7 && attempts_after(
            attempts,
            Attempt::Broken,
        ) >= 7 && attempts_after(attempts, Attempt::TlsFailed) >= 7,
{
    lemma_doubled_values();
    assert(doubled((attempts + 1) as nat) == 2 * doubled(attempts as nat));
}

/// Nobody else is said to be gone when the links to an address are dropped: everyone who is said to be
/// gone had a link to it.
pub proof fn lemma_only_dropped_links_are_told(e: Seq<(u64, ConnView)>, uri: Seq<char>, m: int)
    requires
        0 <= m < keys_to(e, uri).len(),
    ensures
        exists|i: int|
            0 <= i < e.len() && (#[trigger] e[i]).1.uri == uri && keys_to(e, uri)[m] == (
            PeerEventView::Disconnected { key: e[i].1.key }),
    decreases e.len(),
{
    let d = e.drop_last();
    let rest = keys_to(d, uri);
    let all = keys_to(e, uri);
    if m < rest.len() {
        lemma_only_dropped_links_are_told(d, uri, m);
        assert(all[m] == rest[m]);
        let i = choose|i: int|
            0 <= i < d.len() && (#[trigger] d[i]).1.uri == uri && rest[m] == (
            PeerEventView::Disconnected { key: d[i].1.key });
        assert(e[i] == d[i]);
    } else {
        assert(e[e.len() - 1] == e.last());
    }
}

/// Only the address of a node that is refused for what it is gets a mark: whatever happens on a link,
/// no other address gets one, and none does where the link ends, takes too long, or cannot be read.
pub proof fn lemma_who_is_blamed(
    link: SetupView,
    event: EventView,
    bans: Bans,
    now: u64,
    ip: Ip,
)
    ensures
        ({
            let (after, action) = handshake(link, event, bans, now);
            &&& link.peer_ip != Some(ip) ==> get(after, ip) == get(bans, ip)
            &&& event is Failed ==> after == bans && action == LinkActionView::Refuse(Refusal::Io)
            &&& event is TimedOut ==> after == bans && action == LinkActionView::Refuse(
                Refusal::TimedOut,
            )
            &&& event is Header ==> after == bans
            &&& event matches EventView::Body(b) ==> {
                &&& b.len() < 64 ==> after == bans && action == LinkActionView::Refuse(
                    Refusal::Metadata(VersionError::TooShort),
                )
                &&& parse_meta_body(b, link.options.password) is Err ==> after == bans && action is Refuse
            }
            &&& event is Opened ==> action is Exchange || action == LinkActionView::Refuse(
                Refusal::Banned,
            )
        }),
{
    if let Some(at) = link.peer_ip {
        lemma_put(bans, at, failed(get(bans, at), now));
        crate::bans::lemma_time_served_starts_anew(bans, at, now, ip);
    }
}

} // verus!
