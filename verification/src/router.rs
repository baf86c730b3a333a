//! Spanning tree router.
//!
//! Implements greedy routing over a spanning tree embedding using ed25519 keys:
//! - Root election: lexicographically smallest key
//! - Parent selection: minimize (tree distance to root times link latency)
//! - Greedy routing: forward to the neighbour closest in tree space to the destination
//! - Announcements: gossip ancestry info to peers
//!
//! Times are nanoseconds on a clock that never goes back; the caller reads the clock.
use vstd::prelude::*;
use crate::bloom::BloomFilter;
use crate::blooms::{blooms_wf, Blooms, BloomsView, KeyTransform};
use crate::bytes::{key_eq, PublicKey, Sig};
use crate::crypto::{ed25519_public, Crypto};
use crate::pathfinder::{pathfinder_wf, Pathfinder, PathfinderView};
use crate::table::{
    del, distinct, find, get, has_key, lemma_del, lemma_find, lemma_mapped_find, lemma_put, mapped, put,
    KeyTable,
};
use crate::traffic::TrafficPacket;
use crate::tree::{
    accepts, announce_of, coords, info_of, is_newer, wire_of, Infos, RouterAnnounce, RouterInfo,
};
use crate::wire::{
    Announce, PathBroken, PathBrokenView, PathLookup, PathLookupView, PathNotify, PathNotifyView,
    PeerPort, SigReq, SigRes, TrafficView,
};

verus! {

/// Latency of a link that was not measured yet (5 seconds).
pub const UNKNOWN_LATENCY: u64 = 5_000_000_000;

/// Unique identifier for a peer connection.
pub type PeerId = u64;

/// Minimal peer info needed by the router for routing decisions.
#[derive(Clone, Copy, Debug)]
pub struct PeerEntry {
    pub id: PeerId,
    pub key: PublicKey,
    pub port: PeerPort,
    pub prio: u8,
    pub order: u64,
}

/// Signature request (seq and nonce).
#[derive(Clone, Copy, Debug, PartialEq, Eq, Structural)]
pub struct SigReqState {
    pub seq: u64,
    pub nonce: u64,
}

/// Signature response state.
#[derive(Clone, Copy, Debug)]
pub struct SigResState {
    pub seq: u64,
    pub nonce: u64,
    pub port: PeerPort,
    pub psig: Sig,
}

/// Actions the router produces that the networking layer must execute.
pub enum RouterAction {
    /// Send a signature request to a specific peer.
    SendSigReq { peer_id: PeerId, req: SigReq },
    /// Send a signature response to a specific peer.
    SendSigRes { peer_id: PeerId, res: SigRes },
    /// Send an announcement to a specific peer.
    SendAnnounce { peer_id: PeerId, ann: Announce },
    /// Send a bloom filter to a specific peer.
    SendBloom { peer_id: PeerId, bloom: BloomFilter },
    /// Send traffic to a specific peer.
    SendTraffic { peer_id: PeerId, traffic: TrafficPacket },
    /// Send a path notify to a specific peer.
    SendPathNotify { peer_id: PeerId, notify: PathNotify },
    /// Send a path lookup to a specific peer.
    SendPathLookup { peer_id: PeerId, lookup: PathLookup },
    /// Send a path broken to a specific peer.
    SendPathBroken { peer_id: PeerId, broken: PathBroken },
    /// Deliver traffic to the local application.
    DeliverTraffic { traffic: TrafficPacket },
    /// Notify the application of a new path.
    PathNotifyCallback { key: PublicKey },
}

/// What a [`RouterAction`] holds.
pub enum ActionView {
    SendSigReq { peer_id: PeerId, req: SigReq },
    SendSigRes { peer_id: PeerId, res: SigRes },
    SendAnnounce { peer_id: PeerId, ann: Announce },
    SendBloom { peer_id: PeerId, bloom: Set<int> },
    SendTraffic { peer_id: PeerId, traffic: TrafficView },
    SendPathNotify { peer_id: PeerId, notify: PathNotifyView },
    SendPathLookup { peer_id: PeerId, lookup: PathLookupView },
    SendPathBroken { peer_id: PeerId, broken: PathBrokenView },
    DeliverTraffic { traffic: TrafficView },
    PathNotifyCallback { key: PublicKey },
}

impl View for RouterAction {
    type V = ActionView;

    open spec fn view(&self) -> ActionView {
        match *self {
            RouterAction::SendSigReq { peer_id, req } => ActionView::SendSigReq { peer_id, req },
            RouterAction::SendSigRes { peer_id, res } => ActionView::SendSigRes { peer_id, res },
            RouterAction::SendAnnounce { peer_id, ann } => ActionView::SendAnnounce {
                peer_id,
                ann,
            },
            RouterAction::SendBloom { peer_id, bloom } => ActionView::SendBloom {
                peer_id,
                bloom: bloom@,
            },
            RouterAction::SendTraffic { peer_id, traffic } => ActionView::SendTraffic {
                peer_id,
                traffic: traffic@,
            },
            RouterAction::SendPathNotify { peer_id, notify } => ActionView::SendPathNotify {
                peer_id,
                notify: notify@,
            },
            RouterAction::SendPathLookup { peer_id, lookup } => ActionView::SendPathLookup {
                peer_id,
                lookup: lookup@,
            },
            RouterAction::SendPathBroken { peer_id, broken } => ActionView::SendPathBroken {
                peer_id,
                broken: broken@,
            },
            RouterAction::DeliverTraffic { traffic } => ActionView::DeliverTraffic {
                traffic: traffic@,
            },
            RouterAction::PathNotifyCallback { key } => ActionView::PathNotifyCallback { key },
        }
    }
}

/// What a list of actions holds.
pub open spec fn actions_view(v: Seq<RouterAction>) -> Seq<ActionView> {
    Seq::new(v.len(), |i: int| v[i]@)
}

pub(crate) proof fn lemma_actions_push(v: Seq<RouterAction>, a: RouterAction)
    ensures
        actions_view(v.push(a)) == actions_view(v).push(a@),
{
    assert(actions_view(v.push(a)) =~= actions_view(v).push(a@));
}

pub(crate) proof fn lemma_actions_concat(v: Seq<RouterAction>, w: Seq<RouterAction>)
    ensures
        actions_view(v + w) == actions_view(v) + actions_view(w),
{
    assert(actions_view(v + w) =~= actions_view(v) + actions_view(w));
}

/// Timing parameters of the router, in nanoseconds.
#[derive(Clone, Copy, Debug, PartialEq, Eq, Structural)]
pub struct RouterConfig {
    pub router_refresh: u64,
    pub router_timeout: u64,
    pub path_timeout: u64,
    pub path_throttle: u64,
}

/// The connections of each peer, by peer and by connection.
pub type PeersView = Seq<(PublicKey, Seq<(PeerId, PeerEntry)>)>;

/// For each peer, the nodes whose announcements it was sent.
pub type SentView = Seq<(PublicKey, Seq<(PublicKey, ())>)>;

/// The spanning tree router.
pub struct Router<T> {
    pub crypto: Crypto,
    pub pathfinder: Pathfinder,
    pub blooms: Blooms,
    /// All peer connections grouped by public key.
    pub peers: KeyTable<PublicKey, KeyTable<PeerId, PeerEntry>>,
    /// What info we've sent to each peer (by their key).
    pub sent: KeyTable<PublicKey, KeyTable<PublicKey, ()>>,
    /// Port to public key mapping (for tree lookups).
    pub ports: KeyTable<PeerPort, PublicKey>,
    /// Known tree info for each node.
    pub infos: KeyTable<PublicKey, RouterInfo>,
    /// When each node's info was last refreshed.
    pub info_times: KeyTable<PublicKey, u64>,
    /// Ancestry info per peer.
    pub ancs: KeyTable<PublicKey, Vec<PublicKey>>,
    /// Cached path (coords) for each node asked for since the tree last changed.
    pub cache: KeyTable<PublicKey, Vec<PeerPort>>,
    pub lags: KeyTable<PeerId, u64>,
    /// When we last sent a signature request to each peer.
    pub sig_req_times: KeyTable<PeerId, u64>,
    pub requests: KeyTable<PublicKey, SigReqState>,
    pub responses: KeyTable<PublicKey, SigResState>,
    pub responded: KeyTable<PeerId, ()>,
    pub res_seqs: KeyTable<PublicKey, u64>,
    pub res_seq_ctr: u64,
    pub refresh: bool,
    pub do_root1: bool,
    pub do_root2: bool,
    pub last_refresh: u64,
    pub config: RouterConfig,
    pub bloom_transform: T,
}

/// What a [`Router`] holds, but for the cache: what is cached follows from the tree.
pub struct RouterView<T> {
    pub key: PublicKey,
    pub secret: Seq<u8>,
    pub pathfinder: PathfinderView,
    pub blooms: BloomsView,
    pub peers: PeersView,
    pub sent: SentView,
    pub ports: Seq<(PeerPort, PublicKey)>,
    pub infos: Infos,
    pub info_times: Seq<(PublicKey, u64)>,
    pub ancs: Seq<(PublicKey, Seq<PublicKey>)>,
    pub lags: Seq<(PeerId, u64)>,
    pub sig_req_times: Seq<(PeerId, u64)>,
    pub requests: Seq<(PublicKey, SigReqState)>,
    pub responses: Seq<(PublicKey, SigResState)>,
    pub responded: Seq<(PeerId, ())>,
    pub res_seqs: Seq<(PublicKey, u64)>,
    pub res_seq_ctr: u64,
    pub refresh: bool,
    pub do_root1: bool,
    pub do_root2: bool,
    pub last_refresh: u64,
    pub config: RouterConfig,
    pub transform: T,
}

/// The entries of a table of connections.
pub open spec fn group_view() -> spec_fn(KeyTable<PeerId, PeerEntry>) -> Seq<(PeerId, PeerEntry)> {
    |t: KeyTable<PeerId, PeerEntry>| t@
}

/// The entries of a set of keys.
pub open spec fn keyset_view() -> spec_fn(KeyTable<PublicKey, ()>) -> Seq<(PublicKey, ())> {
    |t: KeyTable<PublicKey, ()>| t@
}

/// The entries of a list of keys.
pub open spec fn keys_view() -> spec_fn(Vec<PublicKey>) -> Seq<PublicKey> {
    |v: Vec<PublicKey>| v@
}

impl<T> View for Router<T> {
    type V = RouterView<T>;

    open spec fn view(&self) -> RouterView<T> {
        RouterView {
            key: self.crypto.public_key,
            secret: self.crypto.secret@,
            pathfinder: self.pathfinder@,
            blooms: self.blooms@,
            peers: mapped(self.peers@, group_view()),
            sent: mapped(self.sent@, keyset_view()),
            ports: self.ports@,
            infos: self.infos@,
            info_times: self.info_times@,
            ancs: mapped(self.ancs@, keys_view()),
            lags: self.lags@,
            sig_req_times: self.sig_req_times@,
            requests: self.requests@,
            responses: self.responses@,
            responded: self.responded@,
            res_seqs: self.res_seqs@,
            res_seq_ctr: self.res_seq_ctr,
            refresh: self.refresh,
            do_root1: self.do_root1,
            do_root2: self.do_root2,
            last_refresh: self.last_refresh,
            config: self.config,
            transform: self.bloom_transform,
        }
    }
}

/// A peer's connections are kept under their ids and belong to it.
pub open spec fn group_wf(key: PublicKey, group: Seq<(PeerId, PeerEntry)>) -> bool {
    &&& distinct(group)
    &&& forall|j: int|
        0 <= j < group.len() ==> (#[trigger] group[j]).1.key == key && group[j].1.id == group[j].0
}

/// A packet cached for a destination is addressed to it.
pub open spec fn cached_for_dest(p: PathfinderView) -> bool {
    forall|k: PublicKey|
        #[trigger] get(p.paths, k) matches Some(i) ==> (i.cached_traffic matches Some(t) ==> t.dest
            == k)
}

/// The sequence number of our own announcement; zero if there is none.
pub open spec fn own_seq<T>(v: RouterView<T>) -> u64 {
    match get(v.infos, v.key) {
        Some(i) => i.seq,
        None => 0,
    }
}

/// No signature was asked for or given beyond the next sequence number.
pub open spec fn seqs_in_step<T>(v: RouterView<T>) -> bool {
    &&& forall|k: PublicKey|
        #[trigger] get(v.requests, k) matches Some(r) ==> r.seq <= own_seq(v) + 1
    &&& forall|k: PublicKey|
        #[trigger] get(v.responses, k) matches Some(r) ==> r.seq <= own_seq(v) + 1
}

/// The router invariant: no key occurs twice in a table, connections are kept under their
/// ids, the public key belongs to the secret key, and requests are in step with our own
/// sequence number.
pub open spec fn router_wf<T>(v: RouterView<T>) -> bool {
    &&& v.key@ == ed25519_public(v.secret)
    &&& pathfinder_wf(v.pathfinder)
    &&& cached_for_dest(v.pathfinder)
    &&& blooms_wf(v.blooms)
    &&& distinct(v.peers)
    &&& forall|i: int| 0 <= i < v.peers.len() ==> group_wf((#[trigger] v.peers[i]).0, v.peers[i].1)
    &&& distinct(v.sent)
    &&& forall|i: int| 0 <= i < v.sent.len() ==> distinct((#[trigger] v.sent[i]).1)
    &&& distinct(v.ports)
    &&& distinct(v.infos)
    &&& distinct(v.info_times)
    &&& distinct(v.ancs)
    &&& distinct(v.lags)
    &&& distinct(v.sig_req_times)
    &&& distinct(v.requests)
    &&& distinct(v.responses)
    &&& distinct(v.responded)
    &&& distinct(v.res_seqs)
    &&& seqs_in_step(v)
}

/// What is cached are the coordinates that follow from the tree.
pub open spec fn cache_wf(cache: Seq<(PublicKey, Vec<PeerPort>)>, infos: Infos) -> bool {
    &&& distinct(cache)
    &&& forall|k: PublicKey| #[trigger] get(cache, k) matches Some(p) ==> p@ == coords(infos, k)
}

impl<T: KeyTransform> Router<T> {
    /// The router invariant.
    pub open spec fn wf(&self) -> bool {
        router_wf(self@) && cache_wf(self.cache@, self.infos@)
    }

    /// A router without peers, at time `now`.
    pub fn new(crypto: Crypto, config: RouterConfig, bloom_transform: T, now: u64) -> (r: Self)
        requires
            crypto.wf(),
        ensures
            r.wf(),
            r@ == (RouterView {
                key: crypto.public_key,
                secret: crypto.secret@,
                pathfinder: r@.pathfinder,
                blooms: Seq::empty(),
                peers: Seq::empty(),
                sent: Seq::empty(),
                ports: Seq::empty(),
                infos: Seq::empty(),
                info_times: Seq::empty(),
                ancs: Seq::empty(),
                lags: Seq::empty(),
                sig_req_times: Seq::empty(),
                requests: Seq::empty(),
                responses: Seq::empty(),
                responded: Seq::empty(),
                res_seqs: Seq::empty(),
                res_seq_ctr: 0,
                refresh: false,
                do_root1: false,
                do_root2: true,
                last_refresh: now,
                config,
                transform: bloom_transform,
            }),
            r@.pathfinder.paths.len() == 0,
            r@.pathfinder.rumors.len() == 0,
    {
        let pathfinder = Pathfinder::new(&crypto);
        let r = Router {
            crypto,
            pathfinder,
            blooms: Blooms::new(),
            peers: KeyTable::new(),
            sent: KeyTable::new(),
            ports: KeyTable::new(),
            infos: KeyTable::new(),
            info_times: KeyTable::new(),
            ancs: KeyTable::new(),
            cache: KeyTable::new(),
            lags: KeyTable::new(),
            sig_req_times: KeyTable::new(),
            requests: KeyTable::new(),
            responses: KeyTable::new(),
            responded: KeyTable::new(),
            res_seqs: KeyTable::new(),
            res_seq_ctr: 0,
            refresh: false,
            do_root1: false,
            do_root2: true,
            last_refresh: now,
            config,
            bloom_transform,
        };
        proof {
            assert(r@.peers =~= Seq::empty());
            assert(r@.sent =~= Seq::empty());
            assert(r@.ancs =~= Seq::empty());
            assert forall|k: PublicKey| #[trigger] get(r.cache@, k) is None by {
                lemma_find(r.cache@, k);
            }
            assert forall|k: PublicKey| #[trigger] get(r@.pathfinder.paths, k) is None by {
                lemma_find(r@.pathfinder.paths, k);
            }
            assert forall|k: PublicKey| #[trigger] get(r@.requests, k) is None by {
                lemma_find(r@.requests, k);
            }
            assert forall|k: PublicKey| #[trigger] get(r@.responses, k) is None by {
                lemma_find(r@.responses, k);
            }
        }
        r
    }
}

// ---------------------------------------------------------------------------
// Tree updates
// ---------------------------------------------------------------------------

/// The sets of sent announcements after the node `key` was taken out of each.
pub open spec fn unsent(sent: SentView, key: PublicKey) -> SentView {
    Seq::new(sent.len(), |i: int| (sent[i].0, del(sent[i].1, key)))
}

/// The sets of sent announcements after `key` was marked as sent to `peer`.
pub open spec fn mark_sent(sent: SentView, peer: PublicKey, key: PublicKey) -> SentView {
    match get(sent, peer) {
        Some(s) => put(sent, peer, put(s, key, ())),
        None => sent,
    }
}

/// The router after an announcement: an accepted one is stored, and is to be sent to everyone
/// again.
pub open spec fn updated<T>(v: RouterView<T>, a: RouterAnnounce, now: u64) -> RouterView<T> {
    if accepts(v.infos, a) {
        RouterView {
            infos: put(v.infos, a.key, info_of(a)),
            info_times: put(v.info_times, a.key, now),
            sent: unsent(v.sent, a.key),
            ..v
        }
    } else {
        v
    }
}

/// The router after an announcement from a peer, and what it answers: an announcement that is
/// not accepted is answered with what is known, unless that is the same.
pub open spec fn announced<T>(
    v: RouterView<T>,
    peer_id: PeerId,
    peer_key: PublicKey,
    a: RouterAnnounce,
    now: u64,
) -> (RouterView<T>, Seq<ActionView>) {
    let u = updated(v, a, now);
    let end = RouterView { sent: mark_sent(u.sent, peer_key, a.key), ..u };
    if accepts(v.infos, a) {
        (RouterView { refresh: v.refresh || a.key == v.key, ..end }, Seq::empty())
    } else {
        let known = get(v.infos, a.key)->0;
        if known != info_of(a) {
            (
                end,
                seq![
                    ActionView::SendAnnounce {
                        peer_id,
                        ann: wire_of(announce_of(known, a.key)),
                    },
                ],
            )
        } else {
            (end, Seq::empty())
        }
    }
}

pub(crate) proof fn lemma_unsent_wf(sent: SentView, key: PublicKey)
    requires
        distinct(sent),
        forall|i: int| 0 <= i < sent.len() ==> distinct((#[trigger] sent[i]).1),
    ensures
        distinct(unsent(sent, key)),
        forall|i: int|
            0 <= i < unsent(sent, key).len() ==> distinct((#[trigger] unsent(sent, key)[i]).1),
{
    let u = unsent(sent, key);
    assert forall|i: int| 0 <= i < u.len() implies distinct((#[trigger] u[i]).1) by {
        assert(distinct(sent[i].1));
        lemma_del(sent[i].1, key);
    }
    assert forall|i: int, j: int| 0 <= i < j < u.len() implies u[i].0 != u[j].0 by {
        assert(sent[i].0 != sent[j].0);
    }
}

proof fn lemma_mark_sent_wf(sent: SentView, peer: PublicKey, key: PublicKey)
    requires
        distinct(sent),
        forall|i: int| 0 <= i < sent.len() ==> distinct((#[trigger] sent[i]).1),
    ensures
        distinct(mark_sent(sent, peer, key)),
        forall|i: int|
            0 <= i < mark_sent(sent, peer, key).len() ==> distinct(
                (#[trigger] mark_sent(sent, peer, key)[i]).1,
            ),
{
    lemma_find(sent, peer);
    match get(sent, peer) {
        Some(s) => {
            assert(distinct(sent[find(sent, peer)].1));
            lemma_put(s, key, ());
            lemma_put(sent, peer, put(s, key, ()));
        },
        None => {},
    }
}

pub(crate) proof fn lemma_updated_wf<T>(v: RouterView<T>, a: RouterAnnounce, now: u64)
    requires
        router_wf(v),
    ensures
        router_wf(updated(v, a, now)),
{
    lemma_put(v.infos, a.key, info_of(a));
    lemma_put(v.info_times, a.key, now);
    lemma_unsent_wf(v.sent, a.key);
    let u = updated(v, a, now);
    assert(own_seq(u) >= own_seq(v)) by {
        assert(accepts(v.infos, a) ==> get(u.infos, v.key) == (if v.key == a.key {
            Some(info_of(a))
        } else {
            get(v.infos, v.key)
        }));
    }
}

impl<T: KeyTransform> Router<T> {
    /// Forgets all cached paths.
    pub(crate) fn reset_cache(&mut self)
        requires
            router_wf(old(self)@),
        ensures
            final(self)@ == old(self)@,
            final(self).wf(),
            final(self).infos == old(self).infos,
            final(self).cache@.len() == 0,
    {
        self.cache.clear();
        assert forall|k: PublicKey| #[trigger] get(self.cache@, k) is None by {
            lemma_find(self.cache@, k);
        }
    }

    /// Takes a node out of every set of sent announcements.
    pub(crate) fn unsend(&mut self, key: &PublicKey)
        ensures
            final(self)@ == (RouterView { sent: unsent(old(self)@.sent, *key), ..old(self)@ }),
            final(self).cache == old(self).cache,
    {
        let ghost start = self@.sent;
        let ghost goal = unsent(start, *key);
        let mut i: usize = 0;
        let n: usize = self.sent.len();
        while i < n
            invariant
                i <= n,
                n == self.sent@.len(),
                n == start.len(),
                goal == unsent(start, *key),
                self@ == (RouterView { sent: self@.sent, ..old(self)@ }),
                self.cache == old(self).cache,
                forall|j: int| 0 <= j < i ==> self@.sent[j] == goal[j],
                forall|j: int| i <= j < n ==> self@.sent[j] == start[j],
            decreases n - i,
        {
            let ghost before = self@.sent;
            let s = self.sent.value_at_mut(i);
            assert(s@ == before[i as int].1);
            let _ = s.remove(key);
            assert(self@.sent[i as int] == goal[i as int]);
            assert forall|j: int| 0 <= j < n && j != i implies self@.sent[j] == before[j] by {}
            i += 1;
        }
        assert(self@.sent =~= goal);
    }

    /// Marks a node's announcement as sent to a peer.
    fn mark(&mut self, peer: &PublicKey, key: &PublicKey)
        ensures
            final(self)@ == (RouterView {
                sent: mark_sent(old(self)@.sent, *peer, *key),
                ..old(self)@
            }),
            final(self).cache == old(self).cache,
    {
        let ghost start = self@.sent;
        proof {
            lemma_mapped_find(self.sent@, keyset_view(), *peer);
            lemma_find(start, *peer);
        }
        match self.sent.position(peer) {
            Some(at) => {
                let s = self.sent.value_at_mut(at);
                assert(get(start, *peer) == Some(s@));
                s.insert(*key, ());
                assert(self@.sent =~= mark_sent(start, *peer, *key));
            },
            None => {},
        }
    }

    /// Processes a tree announcement. Returns true if accepted. Then no path is remembered any
    /// longer; a refused announcement changes nothing.
    pub fn update(&mut self, ann: &RouterAnnounce, now: u64) -> (r: bool)
        requires
            old(self).wf(),
        ensures
            final(self).wf(),
            r == accepts(old(self)@.infos, *ann),
            final(self)@ == updated(old(self)@, *ann, now),
            r ==> final(self).cache@.len() == 0,
            !r ==> *final(self) == *old(self),
    {
        let info = ann.info();
        match self.infos.get(&ann.key) {
            Some(known) => {
                if !is_newer(&info, known) {
                    return false;
                }
            },
            None => {},
        }
        proof {
            lemma_updated_wf(self@, *ann, now);
        }
        self.unsend(&ann.key);
        self.infos.insert(ann.key, info);
        self.info_times.insert(ann.key, now);
        assert(self@ == updated(old(self)@, *ann, now));
        self.reset_cache();
        true
    }

    /// Handles an announcement from a peer.
    pub fn handle_announce(
        &mut self,
        peer_id: PeerId,
        peer_key: &PublicKey,
        ann: &RouterAnnounce,
        now: u64,
    ) -> (actions: Vec<RouterAction>)
        requires
            old(self).wf(),
        ensures
            final(self).wf(),
            (final(self)@, actions_view(actions@)) == announced(
                old(self)@,
                peer_id,
                *peer_key,
                *ann,
                now,
            ),
    {
        let mut actions: Vec<RouterAction> = Vec::new();
        assert(actions_view(actions@) =~= Seq::empty());
        if self.update(ann, now) {
            if key_eq(&ann.key, &self.crypto.public_key) {
                self.refresh = true;
            }
            proof {
                lemma_mark_sent_wf(self@.sent, *peer_key, ann.key);
            }
            self.mark(peer_key, &ann.key);
        } else {
            let info = ann.info();
            proof {
                lemma_mark_sent_wf(self@.sent, *peer_key, ann.key);
            }
            match self.infos.get(&ann.key) {
                Some(known) => {
                    if !known.same_as(&info) {
                        let a = RouterAction::SendAnnounce {
                            peer_id,
                            ann: known.get_announce(ann.key).to_wire(),
                        };
                        proof {
                            lemma_actions_push(actions@, a);
                        }
                        actions.push(a);
                        assert(actions_view(actions@) =~= seq![a@]);
                    }
                },
                None => {},
            }
            self.mark(peer_key, &ann.key);
        }
        actions
    }
}

// ---------------------------------------------------------------------------
// Laws
// ---------------------------------------------------------------------------

/// An announcement from a peer that wins over what is known is what is known afterwards, and is to
/// go to every peer but the one that it came from; one about ourselves makes us announce our place
/// anew. One that does not win changes nothing that is known, and is answered with what is known
/// unless that is the same. Nothing is known otherwise of any other node.
pub proof fn lemma_announcement_is_taken_or_answered<T>(
    v: RouterView<T>,
    peer_id: PeerId,
    peer_key: PublicKey,
    a: RouterAnnounce,
    now: u64,
    k: PublicKey,
)
    requires
        router_wf(v),
    ensures
        ({
            let (u, sent) = announced(v, peer_id, peer_key, a, now);
            let known = get(v.infos, a.key);
            let wins = known matches Some(old) ==> crate::tree::supersedes(info_of(a), old);
            &&& k != a.key ==> get(u.infos, k) == get(v.infos, k)
            &&& wins ==> get(u.infos, a.key) == Some(info_of(a)) && get(u.info_times, a.key) == Some(now)
                && sent.len() == 0
            &&& wins && a.key == v.key ==> u.refresh
            &&& wins && k != peer_key ==> (get(u.sent, k) matches Some(s) ==> !has_key(s, a.key))
            &&& get(u.sent, peer_key) matches Some(s) ==> has_key(s, a.key)
            &&& !wins ==> u.infos == v.infos && u.info_times == v.info_times && u.refresh == v.refresh
            &&& !wins && known == Some(info_of(a)) ==> sent.len() == 0
            &&& !wins && known != Some(info_of(a)) ==> sent.len() == 1 && sent[0] == (
            ActionView::SendAnnounce { peer_id, ann: wire_of(announce_of(known->0, a.key)) })
        }),
{
    let u = updated(v, a, now);
    lemma_put(v.infos, a.key, info_of(a));
    lemma_put(v.info_times, a.key, now);
    assert(get(put(v.infos, a.key, info_of(a)), k) == (if k == a.key {
        Some(info_of(a))
    } else {
        get(v.infos, k)
    }));
    let end = announced(v, peer_id, peer_key, a, now).0;
    if let Some(s) = get(u.sent, peer_key) {
        lemma_put(s, a.key, ());
        lemma_put(u.sent, peer_key, put(s, a.key, ()));
        assert(get(end.sent, peer_key) == Some(put(s, a.key, ())));
        assert(get(put(s, a.key, ()), a.key) is Some);
        assert(get(end.sent, k) == (if k == peer_key {
            Some(put(s, a.key, ()))
        } else {
            get(u.sent, k)
        }));
    }
    if accepts(v.infos, a) && k != peer_key {
        if let Some(s) = get(unsent(v.sent, a.key), k) {
            lemma_find(unsent(v.sent, a.key), k);
            let at = find(unsent(v.sent, a.key), k);
            assert(distinct(v.sent[at].1));
            lemma_del(v.sent[at].1, a.key);
            assert(get(s, a.key) is None);
        }
    }
}

} // verus!
