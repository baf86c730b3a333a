//! The messages that a node's router is driven by, and what it answers.
use vstd::prelude::*;
use crate::bloom::{key_bits, BloomFilter};
use crate::blooms::{matching, BloomInfoView, KeyTransform};
use crate::bytes::{
    copy_u64s, key_eq, key_less, lemma_array_view_eq, lemma_lex_total, lemma_lex_transitive,
    lex_less, PublicKey,
};
use crate::discovery::{
    broken_done, lookup_done, lookup_forced, notify_handled, routed, sent_out, with_pathfinder,
    Clock, Outcome,
};
use crate::neighbours::{
    countersigned, has_room, peer_added, peer_removed, responded,
};
use crate::pathfinder::{path_info_view, rumor_ensured, PathInfoView, PathRumorView};
use crate::random::{random_u64, random_u64s};
use crate::router::{
    actions_view, announced, group_view, own_seq, router_wf, seqs_in_step, ActionView, PeerEntry,
    PeerId, Router, RouterAction, RouterView,
};
use crate::routing::cost_of;
use crate::seqs::sum;
use crate::table::{find, get, has_key, lemma_find, lemma_mapped_find, put, KeyTable};
use crate::traffic::{elapsed, TrafficPacket};
use crate::tree::{coords, root_of, RouterAnnounce};
use crate::types::Moment;
use crate::upkeep::{all_forgotten, expired_keys, round};
use crate::wire::{
    PathBroken, PathBrokenView, PathLookup, PathLookupView, PathNotify, PathNotifyView, PeerPort,
    SigReq, SigRes, TrafficView,
};

verus! {

/// A message to the router that may change it.
pub enum RouterMsg {
    /// A connection came up.
    AddPeer { entry: PeerEntry },
    /// A connection went down.
    RemovePeer { peer_id: PeerId, key: PublicKey, port: PeerPort },
    /// A peer asks for a signature.
    HandleRequest { peer_id: PeerId, peer_key: PublicKey, req: SigReq },
    /// A peer gives a signature.
    HandleResponse { peer_id: PeerId, key: PublicKey, res: SigRes },
    /// A peer announces a node's place in the tree.
    HandleAnnounce { peer_id: PeerId, peer_key: PublicKey, ann: RouterAnnounce },
    /// A peer sends its filter.
    HandleBloom { peer_key: PublicKey, filter: BloomFilter },
    /// Traffic from a peer.
    HandleTraffic { traffic: TrafficPacket },
    /// Traffic from the local application.
    SendTraffic { traffic: TrafficPacket },
    /// A lookup from a peer.
    HandleLookup { peer_key: PublicKey, lookup: PathLookup },
    /// A notification from a peer.
    HandleNotify { notify: PathNotify },
    /// Word of a broken path from a peer.
    HandleBroken { broken: PathBroken },
    /// The local application asks for a path.
    SendLookup { our_key: PublicKey, dest: PublicKey },
    /// The local application asks for a path now.
    ForceLookup { dest: PublicKey },
    /// Announce our place anew, now.
    ForceRefresh,
}

/// What a [`RouterMsg`] holds.
pub enum MsgView {
    AddPeer { entry: PeerEntry },
    RemovePeer { peer_id: PeerId, key: PublicKey, port: PeerPort },
    HandleRequest { peer_id: PeerId, peer_key: PublicKey, req: SigReq },
    HandleResponse { peer_id: PeerId, key: PublicKey, res: SigRes },
    HandleAnnounce { peer_id: PeerId, peer_key: PublicKey, ann: RouterAnnounce },
    HandleBloom { peer_key: PublicKey, filter: Set<int> },
    HandleTraffic { traffic: TrafficView },
    SendTraffic { traffic: TrafficView },
    HandleLookup { peer_key: PublicKey, lookup: PathLookupView },
    HandleNotify { notify: PathNotifyView },
    HandleBroken { broken: PathBrokenView },
    SendLookup { our_key: PublicKey, dest: PublicKey },
    ForceLookup { dest: PublicKey },
    ForceRefresh,
}

impl View for RouterMsg {
    type V = MsgView;

    open spec fn view(&self) -> MsgView {
        match *self {
            RouterMsg::AddPeer { entry } => MsgView::AddPeer { entry },
            RouterMsg::RemovePeer { peer_id, key, port } => MsgView::RemovePeer {
                peer_id,
                key,
                port,
            },
            RouterMsg::HandleRequest { peer_id, peer_key, req } => MsgView::HandleRequest {
                peer_id,
                peer_key,
                req,
            },
            RouterMsg::HandleResponse { peer_id, key, res } => MsgView::HandleResponse {
                peer_id,
                key,
                res,
            },
            RouterMsg::HandleAnnounce { peer_id, peer_key, ann } => MsgView::HandleAnnounce {
                peer_id,
                peer_key,
                ann,
            },
            RouterMsg::HandleBloom { peer_key, filter } => MsgView::HandleBloom {
                peer_key,
                filter: filter@,
            },
            RouterMsg::HandleTraffic { traffic } => MsgView::HandleTraffic { traffic: traffic@ },
            RouterMsg::SendTraffic { traffic } => MsgView::SendTraffic { traffic: traffic@ },
            RouterMsg::HandleLookup { peer_key, lookup } => MsgView::HandleLookup {
                peer_key,
                lookup: lookup@,
            },
            RouterMsg::HandleNotify { notify } => MsgView::HandleNotify { notify: notify@ },
            RouterMsg::HandleBroken { broken } => MsgView::HandleBroken { broken: broken@ },
            RouterMsg::SendLookup { our_key, dest } => MsgView::SendLookup { our_key, dest },
            RouterMsg::ForceLookup { dest } => MsgView::ForceLookup { dest },
            RouterMsg::ForceRefresh => MsgView::ForceRefresh,
        }
    }
}

/// The packet that a lookup by the local application is carried by.
pub open spec fn empty_packet(source: PublicKey, dest: PublicKey) -> TrafficView {
    TrafficView {
        path: Seq::empty(),
        from: Seq::empty(),
        source,
        dest,
        watermark: u64::MAX,
        payload: Seq::empty(),
    }
}

/// The router after a message, and what it asks for: every message is handed to the part of
/// the router that it is for. The random numbers are for signature requests.
pub open spec fn msg_done<T: KeyTransform>(
    v: RouterView<T>,
    m: MsgView,
    nonce: u64,
    nonces: Seq<u64>,
    c: Clock,
) -> Outcome<T> {
    match m {
        MsgView::AddPeer { entry } => peer_added(v, entry, nonce, c.now),
        MsgView::RemovePeer { peer_id, key, port } => peer_removed(v, peer_id, key, port),
        MsgView::HandleRequest { peer_id, peer_key, req } => (
            v,
            match get(v.peers, peer_key) {
                Some(group) => match get(group, peer_id) {
                    Some(entry) => seq![countersigned(v, entry, req)],
                    None => Seq::empty(),
                },
                None => Seq::empty(),
            },
        ),
        MsgView::HandleResponse { peer_id, key, res } => (
            responded(v, peer_id, key, res, c.now),
            Seq::empty(),
        ),
        MsgView::HandleAnnounce { peer_id, peer_key, ann } => announced(
            v,
            peer_id,
            peer_key,
            ann,
            c.now,
        ),
        MsgView::HandleBloom { peer_key, filter } => (
            RouterView {
                blooms: match get(v.blooms, peer_key) {
                    Some(i) => put(v.blooms, peer_key, BloomInfoView { recv: filter, ..i }),
                    None => v.blooms,
                },
                ..v
            },
            Seq::empty(),
        ),
        MsgView::HandleTraffic { traffic } => routed(v, traffic, c),
        MsgView::SendTraffic { traffic } => sent_out(v, traffic, c),
        MsgView::HandleLookup { peer_key, lookup } => if get(
            v.blooms,
            peer_key,
        ) matches Some(i) && i.on_tree {
            lookup_done(v, peer_key, lookup, c)
        } else {
            (v, Seq::empty())
        },
        MsgView::HandleNotify { notify } => notify_handled(v, notify, c),
        MsgView::HandleBroken { broken } => broken_done(v, broken, c),
        MsgView::SendLookup { our_key, dest } => sent_out(
            with_pathfinder(
                v,
                rumor_ensured(v.pathfinder, v.transform.transformed(dest), c.now),
            ),
            empty_packet(our_key, dest),
            c,
        ),
        MsgView::ForceLookup { dest } => lookup_forced(v, dest, c),
        MsgView::ForceRefresh => round(RouterView { refresh: true, ..v }, nonce, nonces, c.now),
    }
}

/// How many of the actions are lookups.
pub open spec fn lookups_in(actions: Seq<ActionView>) -> int {
    sum(actions, |a: ActionView| if a is SendPathLookup { 1int } else { 0int })
}

/// Processes a message with the random numbers for signature requests: calls the part of the
/// router that it is for and returns the actions to execute.
pub fn handle_router_msg_with<T: KeyTransform>(
    router: &mut Router<T>,
    msg: RouterMsg,
    nonce: u64,
    nonces: &[u64],
    clock: Clock,
) -> (actions: Vec<RouterAction>)
    requires
        old(router).wf(),
        has_room(old(router)@),
        nonces@.len() == old(router)@.peers.len(),
    ensures
        final(router).wf(),
        (final(router)@, actions_view(actions@)) == msg_done(
            old(router)@,
            msg@,
            nonce,
            nonces@,
            clock,
        ),
{
    let ghost v = router@;
    let none: Vec<RouterAction> = Vec::new();
    assert(actions_view(none@) =~= Seq::empty());
    match msg {
        RouterMsg::AddPeer { entry } => router.add_peer_with(entry, nonce, clock.now),
        RouterMsg::RemovePeer { peer_id, key, port } => router.remove_peer(peer_id, key, port),
        RouterMsg::HandleRequest { peer_id, peer_key, req } => {
            proof {
                lemma_mapped_find(router.peers@, group_view(), peer_key);
            }
            match router.peers.get(&peer_key) {
                Some(group) => match group.get(&peer_id) {
                    Some(entry) => {
                        let action = router.handle_request_with_data(entry, &req);
                        let mut actions: Vec<RouterAction> = Vec::new();
                        actions.push(action);
                        assert(actions_view(actions@) =~= seq![action@]);
                        actions
                    },
                    None => none,
                },
                None => none,
            }
        },
        RouterMsg::HandleResponse { peer_id, key, res } => {
            router.handle_response(peer_id, &key, &res, clock.now);
            none
        },
        RouterMsg::HandleAnnounce { peer_id, peer_key, ann } => router.handle_announce(
            peer_id,
            &peer_key,
            &ann,
            clock.now,
        ),
        RouterMsg::HandleBloom { peer_key, filter } => {
            router.handle_bloom(&peer_key, filter);
            none
        },
        RouterMsg::HandleTraffic { traffic } => router.handle_traffic(traffic, clock),
        RouterMsg::SendTraffic { traffic } => router.send_traffic(traffic, clock),
        RouterMsg::HandleLookup { peer_key, lookup } => router.handle_lookup(
            &peer_key,
            &lookup,
            clock,
        ),
        RouterMsg::HandleNotify { notify } => router.handle_notify(&notify, clock),
        RouterMsg::HandleBroken { broken } => router.handle_broken(&broken, clock),
        RouterMsg::SendLookup { our_key, dest } => {
            let xform = router.blooms.x_key(&dest, &router.bloom_transform);
            let _ = router.pathfinder.ensure_rumor(xform, clock.now);
            let packet = TrafficPacket::new(our_key, dest, Vec::new());
            assert(packet@ == empty_packet(our_key, dest)) by {
                assert(packet@.payload =~= Seq::empty());
            }
            router.send_traffic(packet, clock)
        },
        RouterMsg::ForceLookup { dest } => router.force_lookup(dest, clock),
        RouterMsg::ForceRefresh => {
            router.force_refresh();
            router.do_maintenance_with(nonce, nonces, clock.now)
        },
    }
}

/// Processes a message: calls the part of the router that it is for and returns the actions to
/// execute.
pub fn handle_router_msg<T: KeyTransform>(
    router: &mut Router<T>,
    msg: RouterMsg,
    clock: Clock,
) -> (actions: Vec<RouterAction>)
    requires
        old(router).wf(),
        has_room(old(router)@),
    ensures
        final(router).wf(),
        exists|nonce: u64, nonces: Seq<u64>|
            nonces.len() == old(router)@.peers.len() && (
                final(router)@,
                actions_view(actions@),
            ) == #[trigger] msg_done(old(router)@, msg@, nonce, nonces, clock),
{
    let nonce: u64 = random_u64();
    let nonces = random_u64s(router.peers.len());
    handle_router_msg_with(router, msg, nonce, &nonces, clock)
}

/// Counts how many of the actions are lookups.
pub fn count_lookups(actions: &Vec<RouterAction>) -> (n: usize)
    ensures
        n == lookups_in(actions_view(actions@)),
{
    let ghost f = |a: ActionView| if a is SendPathLookup { 1int } else { 0int };
    let ghost all = actions_view(actions@);
    let mut n: usize = 0;
    let mut i: usize = 0;
    assert(all.take(0) =~= Seq::empty());
    while i < actions.len()
        invariant
            i <= actions@.len(),
            n <= i,
            all == actions_view(actions@),
            n == lookups_in(all.take(i as int)),
        decreases actions@.len() - i,
    {
        assert(all.take(i + 1).drop_last() =~= all.take(i as int));
        match &actions[i] {
            RouterAction::SendPathLookup { .. } => {
                n += 1;
            },
            _ => {},
        }
        i += 1;
    }
    assert(all.take(i as int) =~= all);
    n
}

/// After how many nanoseconds on the wall clock between two maintenance ticks the node must have
/// been suspended.
pub const WALL_JUMP_THRESHOLD: i128 = 30_000_000_000;

impl<T: KeyTransform> Router<T> {
    /// Lets our place be announced anew at the next maintenance.
    pub fn force_refresh(&mut self)
        requires
            old(self).wf(),
        ensures
            final(self).wf(),
            final(self)@ == (RouterView { refresh: true, ..old(self)@ }),
    {
        let ghost v = self@;
        self.refresh = true;
        proof {
            assert(own_seq(self@) == own_seq(v));
            assert(seqs_in_step(self@));
        }
    }
}

/// The router after a maintenance tick: what is old is forgotten, then a maintenance round
/// follows. If the wall clock has jumped since the last tick our place is announced anew.
pub open spec fn ticked<T: KeyTransform>(
    v: RouterView<T>,
    last_wall: Moment,
    wall: Moment,
    nonce: u64,
    nonces: Seq<u64>,
    c: Clock,
) -> Outcome<T> {
    let jumped = wall.total() - last_wall.total() >= WALL_JUMP_THRESHOLD;
    let u = RouterView { refresh: v.refresh || jumped, ..v };
    round(all_forgotten(u, expired_keys(u, u.info_times, c.now)), nonce, nonces, c.now)
}

proof fn lemma_forgetting_keeps_peers<T>(v: RouterView<T>, keys: Seq<PublicKey>)
    requires
        router_wf(v),
    ensures
        ({
            let u = all_forgotten(v, keys);
            &&& u.peers == v.peers
            &&& u.key == v.key
            &&& own_seq(u) == own_seq(v)
            &&& router_wf(u)
        }),
    decreases keys.len(),
{
    if keys.len() > 0 {
        let d = keys.drop_last();
        lemma_forgetting_keeps_peers(v, d);
        let u = all_forgotten(v, d);
        crate::table::lemma_del(u.infos, keys.last());
        crate::table::lemma_del(u.info_times, keys.last());
        crate::router::lemma_unsent_wf(u.sent, keys.last());
        let w = all_forgotten(v, keys);
        assert(get(w.infos, u.key) == get(u.infos, u.key)) by {
            if keys.last() != u.key {
                assert(get(crate::table::del(u.infos, keys.last()), u.key) == get(u.infos, u.key));
            }
        }
        assert(seqs_in_step(w));
    }
}

/// A maintenance tick, with the random numbers for signature requests. `wall` is the wall clock,
/// and `last_wall` that of the tick before.
pub fn tick_with<T: KeyTransform>(
    router: &mut Router<T>,
    last_wall: Moment,
    wall: Moment,
    nonce: u64,
    nonces: &[u64],
    clock: Clock,
) -> (actions: Vec<RouterAction>)
    requires
        old(router).wf(),
        has_room(old(router)@),
        nonces@.len() == old(router)@.peers.len(),
    ensures
        final(router).wf(),
        (final(router)@, actions_view(actions@)) == ticked(
            old(router)@,
            last_wall,
            wall,
            nonce,
            nonces@,
            clock,
        ),
{
    if wall.since_epoch() - last_wall.since_epoch() >= WALL_JUMP_THRESHOLD {
        router.force_refresh();
    }
    let ghost u = router@;
    proof {
        lemma_forgetting_keeps_peers(u, expired_keys(u, u.info_times, clock.now));
    }
    router.expire_infos(clock.now);
    router.do_maintenance_with(nonce, nonces, clock.now)
}

/// A maintenance tick. `wall` is the wall clock, and `last_wall` that of the tick before.
pub fn tick<T: KeyTransform>(
    router: &mut Router<T>,
    last_wall: Moment,
    wall: Moment,
    clock: Clock,
) -> (actions: Vec<RouterAction>)
    requires
        old(router).wf(),
        has_room(old(router)@),
    ensures
        final(router).wf(),
        exists|nonce: u64, nonces: Seq<u64>|
            nonces.len() == old(router)@.peers.len() && (
                final(router)@,
                actions_view(actions@),
            ) == #[trigger] ticked(old(router)@, last_wall, wall, nonce, nonces, clock),
{
    let nonce: u64 = random_u64();
    let nonces = random_u64s(router.peers.len());
    tick_with(router, last_wall, wall, nonce, &nonces, clock)
}

// ---------------------------------------------------------------------------
// Queries
// ---------------------------------------------------------------------------

/// A connected peer. Latency is in nanoseconds.
#[derive(Clone, Copy, Debug)]
pub struct PeerInfo {
    pub key: PublicKey,
    pub port: PeerPort,
    pub priority: u8,
    pub latency_ns: u64,
    pub cost: u64,
}

/// A node of the spanning tree.
#[derive(Clone, Copy, Debug)]
pub struct TreeEntry {
    pub key: PublicKey,
    pub parent: PublicKey,
    pub sequence: u64,
}

/// A cached path.
#[derive(Debug)]
pub struct PathEntry {
    pub key: PublicKey,
    pub path: Vec<PeerPort>,
    pub sequence: u64,
}

/// A pending path lookup. Its age is in nanoseconds.
#[derive(Clone, Copy, Debug)]
pub struct PendingLookup {
    pub dest_key: Option<PublicKey>,
    pub xformed_key: PublicKey,
    pub age_ns: u64,
    pub sent: bool,
    pub multicast_count: usize,
}

/// A diagnostic snapshot of the routing state. Latencies are in nanoseconds.
#[derive(Debug)]
pub struct DebugSnapshot {
    pub tree_node_count: usize,
    pub routing_peer_count: usize,
    pub tree_root: PublicKey,
    pub our_coords: Vec<PeerPort>,
    pub path_cache_count: usize,
    pub broken_path_count: usize,
    pub pending_lookups: Vec<PendingLookup>,
    pub unresponded_peers: usize,
    pub peer_latencies_ns: Vec<(PublicKey, u64)>,
    pub delivery_queue_bytes: u64,
}

/// Whether keys stand in ascending order, none twice.
pub open spec fn ascending(keys: Seq<PublicKey>) -> bool {
    forall|i: int, j: int| 0 <= i < j < keys.len() ==> lex_less(keys[i]@, keys[j]@)
}

proof fn lemma_insert_ascending(s: Seq<PublicKey>, at: int, k: PublicKey)
    requires
        ascending(s),
        0 <= at <= s.len(),
        forall|i: int| 0 <= i < at ==> lex_less(s[i]@, k@),
        at < s.len() ==> lex_less(k@, s[at]@),
    ensures
        ascending(s.insert(at, k)),
        forall|q: PublicKey| s.insert(at, k).contains(q) <==> (s.contains(q) || q == k),
{
    let t = s.insert(at, k);
    assert forall|i: int, j: int| 0 <= i < j < t.len() implies lex_less(t[i]@, t[j]@) by {
        let a = if i < at {
            i
        } else {
            i - 1
        };
        let b = if j < at {
            j
        } else {
            j - 1
        };
        if i == at {
            assert(t[j] == s[b]);
            if b > at {
                assert(lex_less(s[at]@, s[b]@));
                lemma_lex_transitive(k@, s[at]@, s[b]@);
            }
        } else if j == at {
            assert(t[i] == s[a]);
        } else {
            assert(t[i] == s[a] && t[j] == s[b]);
        }
    }
    assert forall|q: PublicKey| t.contains(q) <==> (s.contains(q) || q == k) by {
        if t.contains(q) {
            let i = choose|i: int| 0 <= i < t.len() && t[i] == q;
            if i < at {
                assert(s[i] == q);
            } else if i > at {
                assert(s[i - 1] == q);
            }
        }
        if s.contains(q) {
            let i = choose|i: int| 0 <= i < s.len() && s[i] == q;
            if i < at {
                assert(t[i] == q);
            } else {
                assert(t[i + 1] == q);
            }
        }
        assert(t[at] == k);
    }
}

/// Puts a key in its place among keys in ascending order, unless it is there.
fn insert_ascending(keys: &mut Vec<PublicKey>, k: PublicKey)
    requires
        ascending(old(keys)@),
    ensures
        ascending(final(keys)@),
        forall|q: PublicKey|
            final(keys)@.contains(q) <==> (old(keys)@.contains(q) || q == k),
{
    let ghost s = keys@;
    let mut i: usize = 0;
    while i < keys.len() && key_less(&keys[i], &k)
        invariant
            keys@ == s,
            i <= s.len(),
            forall|j: int| 0 <= j < i ==> lex_less(s[j]@, k@),
        decreases s.len() - i,
    {
        i += 1;
    }
    if i < keys.len() && key_eq(&keys[i], &k) {
        assert(s[i as int] == k);
        return;
    }
    proof {
        if i < s.len() {
            lemma_lex_total(s[i as int]@, k@);
            lemma_array_view_eq(s[i as int], k);
        }
        lemma_insert_ascending(s, i as int, k);
    }
    keys.insert(i, k);
    proof {
        assert(keys@ =~= s.insert(i as int, k));
        assert forall|q: PublicKey| keys@.contains(q) <==> (old(keys)@.contains(q) || q == k) by {
            assert(s.insert(i as int, k).contains(q) <==> (s.contains(q) || q == k));
        }
    }
}

impl<T: KeyTransform> Router<T> {
    /// The nodes of the spanning tree, by ascending key.
    pub fn get_tree(&self) -> (r: Vec<TreeEntry>)
        ensures
            ascending(r@.map_values(|e: TreeEntry| e.key)),
            forall|i: int|
                0 <= i < r@.len() ==> (get(self@.infos, (#[trigger] r@[i]).key) matches Some(info)
                    && r@[i].parent == info.parent && r@[i].sequence == info.seq),
            forall|k: PublicKey| #[trigger]
                has_key(self@.infos, k) ==> r@.map_values(|e: TreeEntry| e.key).contains(k),
    {
        let mut keys: Vec<PublicKey> = Vec::new();
        let mut i: usize = 0;
        while i < self.infos.len()
            invariant
                i <= self.infos@.len(),
                ascending(keys@),
                forall|j: int| 0 <= j < i ==> keys@.contains((#[trigger] self.infos@[j]).0),
                forall|q: PublicKey| keys@.contains(q) ==> has_key(self.infos@, q),
            decreases self.infos@.len() - i,
        {
            let k = self.infos.key_at(i);
            assert(has_key(self.infos@, k)) by {
                lemma_find(self.infos@, k);
                if !has_key(self.infos@, k) {
                    assert(self.infos@[i as int].0 != k);
                }
            }
            insert_ascending(&mut keys, k);
            i += 1;
        }
        let mut r: Vec<TreeEntry> = Vec::new();
        let ghost f = |e: TreeEntry| e.key;
        let mut n: usize = 0;
        while n < keys.len()
            invariant
                n <= keys@.len(),
                forall|q: PublicKey| keys@.contains(q) ==> has_key(self.infos@, q),
                f == (|e: TreeEntry| e.key),
                r@.map_values(f) == keys@.take(n as int),
                forall|i: int|
                    0 <= i < r@.len() ==> (get(
                        self.infos@,
                        (#[trigger] r@[i]).key,
                    ) matches Some(info) && r@[i].parent == info.parent && r@[i].sequence
                        == info.seq),
            decreases keys@.len() - n,
        {
            let key = keys[n];
            assert(keys@.contains(keys@[n as int]));
            assert(has_key(self.infos@, key));
            let ghost before = r@;
            match self.infos.get(&key) {
                Some(info) => {
                    r.push(TreeEntry { key, parent: info.parent, sequence: info.seq });
                    proof {
                        assert(r@.map_values(f) =~= before.map_values(f).push(key));
                        assert(keys@.take(n + 1) =~= keys@.take(n as int).push(key));
                    }
                },
                None => {},
            }
            n += 1;
        }
        assert(keys@.take(n as int) =~= keys@);
        assert forall|k: PublicKey| #[trigger] has_key(self@.infos, k) implies keys@.contains(k) by {
            lemma_find(self.infos@, k);
            assert(keys@.contains(self.infos@[find(self.infos@, k)].0));
        }
        r
    }

    /// The cached paths that work, by ascending key.
    pub fn get_paths(&self) -> (r: Vec<PathEntry>)
        ensures
            ascending(r@.map_values(|e: PathEntry| e.key)),
            forall|i: int|
                0 <= i < r@.len() ==> (get(
                    self@.pathfinder.paths,
                    (#[trigger] r@[i]).key,
                ) matches Some(info) && !info.broken && r@[i].path@ == info.path && r@[i].sequence
                    == info.seq),
            forall|k: PublicKey|
                (#[trigger] get(self@.pathfinder.paths, k) matches Some(info) && !info.broken)
                    ==> r@.map_values(|e: PathEntry| e.key).contains(k),
    {
        let ghost paths = self@.pathfinder.paths;
        let mut keys: Vec<PublicKey> = Vec::new();
        let mut i: usize = 0;
        while i < self.pathfinder.paths.len()
            invariant
                i <= self.pathfinder.paths@.len(),
                ascending(keys@),
                forall|j: int|
                    0 <= j < i ==> keys@.contains((#[trigger] self.pathfinder.paths@[j]).0),
                forall|q: PublicKey| keys@.contains(q) ==> has_key(self.pathfinder.paths@, q),
            decreases self.pathfinder.paths@.len() - i,
        {
            let k = self.pathfinder.paths.key_at(i);
            assert(has_key(self.pathfinder.paths@, k)) by {
                lemma_find(self.pathfinder.paths@, k);
                if !has_key(self.pathfinder.paths@, k) {
                    assert(self.pathfinder.paths@[i as int].0 != k);
                }
            }
            insert_ascending(&mut keys, k);
            i += 1;
        }
        let mut r: Vec<PathEntry> = Vec::new();
        let ghost f = |e: PathEntry| e.key;
        let mut n: usize = 0;
        while n < keys.len()
            invariant
                n <= keys@.len(),
                paths == self@.pathfinder.paths,
                ascending(keys@),
                forall|q: PublicKey| keys@.contains(q) ==> has_key(self.pathfinder.paths@, q),
                f == (|e: PathEntry| e.key),
                ascending(r@.map_values(f)),
                forall|i: int| 0 <= i < r@.len() ==> keys@.take(n as int).contains((#[trigger] r@[i]).key),
                forall|i: int|
                    0 <= i < r@.len() ==> (get(paths, (#[trigger] r@[i]).key) matches Some(info)
                        && !info.broken && r@[i].path@ == info.path && r@[i].sequence == info.seq),
                forall|j: int|
                    0 <= j < n ==> ((get(paths, #[trigger] keys@[j]) matches Some(info)
                        && !info.broken) ==> r@.map_values(f).contains(keys@[j])),
            decreases keys@.len() - n,
        {
            let key = keys[n];
            assert(keys@.contains(keys@[n as int]));
            proof {
                lemma_mapped_find(self.pathfinder.paths@, path_info_view(), key);
            }
            let ghost before = r@;
            match self.pathfinder.paths.get(&key) {
                Some(info) => {
                    if !info.broken {
                        r.push(
                            PathEntry { key, path: copy_u64s(&info.path), sequence: info.seq },
                        );
                        proof {
                            assert(r@.map_values(f) =~= before.map_values(f).push(key));
                            assert forall|i: int, j: int|
                                0 <= i < j < r@.map_values(f).len() implies lex_less(
                                r@.map_values(f)[i]@,
                                r@.map_values(f)[j]@,
                            ) by {
                                if j == before.len() {
                                    assert(keys@.take(n as int).contains(before[i].key));
                                    let m = choose|m: int|
                                        0 <= m < n && keys@.take(n as int)[m] == before[i].key;
                                    assert(lex_less(keys@[m]@, keys@[n as int]@));
                                } else {
                                    assert(lex_less(
                                        before.map_values(f)[i]@,
                                        before.map_values(f)[j]@,
                                    ));
                                }
                            }
                            assert(r@.map_values(f)[before.len() as int] == key);
                        }
                    }
                },
                None => {},
            }
            proof {
                assert forall|i: int| 0 <= i < r@.len() implies keys@.take(n + 1).contains(
                    (#[trigger] r@[i]).key,
                ) by {
                    if i < before.len() {
                        assert(r@[i] == before[i]);
                        let m = choose|m: int|
                            0 <= m < n && keys@.take(n as int)[m] == before[i].key;
                        assert(keys@.take(n + 1)[m] == before[i].key);
                    } else {
                        assert(keys@.take(n + 1)[n as int] == key);
                    }
                }
                assert forall|j: int| 0 <= j < n + 1 && (get(
                    paths,
                    #[trigger] keys@[j],
                ) matches Some(info) && !info.broken) implies r@.map_values(f).contains(keys@[j]) by {
                    if j < n {
                        assert(before.map_values(f).contains(keys@[j]));
                        let m = choose|m: int|
                            0 <= m < before.len() && before.map_values(f)[m] == keys@[j];
                        assert(r@.map_values(f)[m] == keys@[j]);
                    }
                }
            }
            n += 1;
        }
        assert forall|k: PublicKey|
            (#[trigger] get(paths, k) matches Some(info) && !info.broken) implies r@.map_values(
            f,
        ).contains(k) by {
            lemma_mapped_find(self.pathfinder.paths@, path_info_view(), k);
            lemma_find(self.pathfinder.paths@, k);
            let at = find(self.pathfinder.paths@, k);
            assert(keys@.contains(self.pathfinder.paths@[at].0));
            let m = choose|m: int| 0 <= m < keys@.len() && keys@[m] == k;
            assert(keys@[m] == k);
        }
        r
    }

    /// How many nodes of the spanning tree are known.
    pub fn routing_entries(&self) -> (n: usize)
        ensures
            n == self@.infos.len(),
    {
        self.infos.len()
    }

    /// Our coordinates in the tree.
    pub fn tree_coordinates(&self) -> (r: Vec<PeerPort>)
        ensures
            r@ == coords(self@.infos, self@.key),
    {
        let (_, path) = self.get_root_and_path(&self.crypto.public_key);
        path
    }

    /// The keys of the connected peers.
    pub fn get_routing_peer_keys(&self) -> (r: Vec<PublicKey>)
        ensures
            r@ == self@.peers.map_values(|p: (PublicKey, Seq<(PeerId, PeerEntry)>)| p.0),
    {
        let mut r: Vec<PublicKey> = Vec::new();
        while r.len() < self.peers.len()
            invariant
                r@.len() <= self.peers@.len(),
                forall|i: int| 0 <= i < r@.len() ==> r@[i] == self@.peers[i].0,
            decreases self.peers@.len() - r@.len(),
        {
            r.push(self.peers.key_at(r.len()));
        }
        assert(r@ =~= self@.peers.map_values(|p: (PublicKey, Seq<(PeerId, PeerEntry)>)| p.0));
        r
    }

    /// The transformed key of a destination, and how many tree neighbours' filters match it.
    pub fn count_lookup_targets(&self, dest: &PublicKey) -> (r: (PublicKey, usize))
        ensures
            r.0 == self@.transform.transformed(*dest),
            r.1 == matching(self@.blooms, key_bits(r.0@)),
    {
        let xform = self.blooms.x_key(dest, &self.bloom_transform);
        let count: usize = self.blooms.count_on_tree_targets_for_xkey(&xform);
        (xform, count)
    }
}

/// The latency of a connection as it is reported; zero if it was not measured.
pub open spec fn reported_lag<T>(v: RouterView<T>, id: PeerId) -> u64 {
    match get(v.lags, id) {
        Some(l) => l,
        None => 0,
    }
}

/// The connections of a group as they are reported.
pub open spec fn group_report<T>(
    v: RouterView<T>,
    key: PublicKey,
    group: Seq<(PeerId, PeerEntry)>,
) -> Seq<PeerInfo> {
    Seq::new(
        group.len(),
        |i: int|
            PeerInfo {
                key,
                port: group[i].1.port,
                priority: group[i].1.prio,
                latency_ns: reported_lag(v, group[i].1.id),
                cost: cost_of(v, group[i].1.id),
            },
    )
}

/// The connections to the first `n` peers as they are reported.
pub open spec fn peers_report<T>(v: RouterView<T>, n: nat) -> Seq<PeerInfo>
    decreases n,
{
    if n == 0 {
        Seq::empty()
    } else {
        peers_report(v, (n - 1) as nat) + group_report(v, v.peers[n - 1].0, v.peers[n - 1].1)
    }
}

/// A pending lookup as it is reported.
pub open spec fn lookup_report<T>(
    v: RouterView<T>,
    key: PublicKey,
    r: PathRumorView,
    now: u64,
) -> PendingLookup {
    PendingLookup {
        dest_key: match r.traffic {
            Some(t) => Some(t.dest),
            None => None,
        },
        xformed_key: key,
        age_ns: elapsed(r.created, now),
        sent: r.send_time is Some,
        multicast_count: matching(v.blooms, key_bits(key@)) as usize,
    }
}

/// The latency of the first measured connection of a group; zero if there is none.
pub open spec fn group_lag<T>(v: RouterView<T>, group: Seq<(PeerId, PeerEntry)>) -> u64
    decreases group.len(),
{
    if group.len() == 0 {
        0
    } else {
        match get(v.lags, group[0].0) {
            Some(l) => l,
            None => group_lag(v, group.drop_first()),
        }
    }
}

/// How many connections there are.
pub open spec fn connections<T>(v: RouterView<T>) -> int {
    sum(v.peers, |p: (PublicKey, Seq<(PeerId, PeerEntry)>)| p.1.len() as int)
}

/// How many cached paths are broken.
pub open spec fn broken_paths(paths: Seq<(PublicKey, PathInfoView)>) -> int {
    sum(paths, |p: (PublicKey, PathInfoView)| if p.1.broken { 1int } else { 0int })
}

impl<T: KeyTransform> Router<T> {
    /// Info about all connected peers.
    pub fn get_peers(&self) -> (r: Vec<PeerInfo>)
        ensures
            r@ == peers_report(self@, self@.peers.len()),
    {
        let mut r: Vec<PeerInfo> = Vec::new();
        let mut i: usize = 0;
        while i < self.peers.len()
            invariant
                i <= self.peers@.len(),
                r@ == peers_report(self@, i as nat),
            decreases self.peers@.len() - i,
        {
            let key = self.peers.key_at(i);
            let group = self.peers.value_at(i);
            assert(self@.peers[i as int] == (key, group@));
            let ghost before = r@;
            let ghost more = group_report(self@, key, group@);
            let mut j: usize = 0;
            assert(before + more.take(0) =~= before);
            while j < group.len()
                invariant
                    j <= group@.len(),
                    more == group_report(self@, key, group@),
                    r@ == before + more.take(j as int),
                decreases group@.len() - j,
            {
                let entry = group.value_at(j);
                let latency_ns: u64 = match self.lags.get(&entry.id) {
                    Some(l) => *l,
                    None => 0,
                };
                let cost: u64 = self.get_cost(entry.id);
                r.push(
                    PeerInfo { key, port: entry.port, priority: entry.prio, latency_ns, cost },
                );
                assert(r@ =~= before + more.take(j + 1));
                j += 1;
            }
            assert(more.take(j as int) =~= more);
            i += 1;
        }
        r
    }

    fn pending_lookups(&self, now: u64) -> (r: Vec<PendingLookup>)
        ensures
            r@ == Seq::new(
                self@.pathfinder.rumors.len(),
                |i: int|
                    lookup_report(
                        self@,
                        self@.pathfinder.rumors[i].0,
                        self@.pathfinder.rumors[i].1,
                        now,
                    ),
            ),
    {
        let mut r: Vec<PendingLookup> = Vec::new();
        let ghost all = Seq::new(
            self@.pathfinder.rumors.len(),
            |i: int|
                lookup_report(
                    self@,
                    self@.pathfinder.rumors[i].0,
                    self@.pathfinder.rumors[i].1,
                    now,
                ),
        );
        let mut i: usize = 0;
        while i < self.pathfinder.rumors.len()
            invariant
                i <= self.pathfinder.rumors@.len(),
                all == Seq::new(
                    self@.pathfinder.rumors.len(),
                    |i: int|
                        lookup_report(
                            self@,
                            self@.pathfinder.rumors[i].0,
                            self@.pathfinder.rumors[i].1,
                            now,
                        ),
                ),
                r@ == all.take(i as int),
            decreases self.pathfinder.rumors@.len() - i,
        {
            let xformed_key = self.pathfinder.rumors.key_at(i);
            let rumor = self.pathfinder.rumors.value_at(i);
            assert(self@.pathfinder.rumors[i as int] == (xformed_key, rumor@));
            let dest_key: Option<PublicKey> = match &rumor.traffic {
                Some(t) => Some(t.dest),
                None => None,
            };
            let multicast_count: usize = self.blooms.count_on_tree_targets_for_xkey(&xformed_key);
            r.push(
                PendingLookup {
                    dest_key,
                    xformed_key,
                    age_ns: now.saturating_sub(rumor.created),
                    sent: rumor.send_time.is_some(),
                    multicast_count,
                },
            );
            assert(r@ =~= all.take(i + 1));
            i += 1;
        }
        assert(all.take(i as int) =~= all);
        r
    }

    fn first_lag(&self, group: &KeyTable<PeerId, PeerEntry>) -> (r: u64)
        ensures
            r == group_lag(self@, group@),
    {
        let mut i: usize = 0;
        assert(group@.skip(0) =~= group@);
        while i < group.len()
            invariant
                i <= group@.len(),
                group_lag(self@, group@.skip(i as int)) == group_lag(self@, group@),
            decreases group@.len() - i,
        {
            assert(group@.skip(i as int).drop_first() =~= group@.skip(i + 1));
            match self.lags.get(&group.key_at(i)) {
                Some(l) => {
                    return *l;
                },
                None => {},
            }
            i += 1;
        }
        0
    }

    /// A diagnostic snapshot of the routing state at time `now`.
    pub fn get_debug_snapshot(&self, delivery_queue_bytes: u64, now: u64) -> (r: DebugSnapshot)
        requires
            connections(self@) <= usize::MAX,
        ensures
            r.tree_node_count == self@.infos.len(),
            r.routing_peer_count == self@.peers.len(),
            r.tree_root == root_of(self@.infos, self@.key),
            r.our_coords@ == coords(self@.infos, self@.key),
            r.path_cache_count == self@.pathfinder.paths.len(),
            r.broken_path_count == broken_paths(self@.pathfinder.paths),
            r.pending_lookups@ == Seq::new(
                self@.pathfinder.rumors.len(),
                |i: int|
                    lookup_report(
                        self@,
                        self@.pathfinder.rumors[i].0,
                        self@.pathfinder.rumors[i].1,
                        now,
                    ),
            ),
            r.unresponded_peers == (if connections(self@) >= self@.responded.len() {
                connections(self@) - self@.responded.len()
            } else {
                0
            }),
            r.peer_latencies_ns@ == Seq::new(
                self@.peers.len(),
                |i: int| (self@.peers[i].0, group_lag(self@, self@.peers[i].1)),
            ),
            r.delivery_queue_bytes == delivery_queue_bytes,
    {
        let (tree_root, our_coords) = self.get_root_and_path(&self.crypto.public_key);
        let pending_lookups = self.pending_lookups(now);
        let ghost fb = |p: (PublicKey, PathInfoView)| if p.1.broken { 1int } else { 0int };
        let ghost paths = self@.pathfinder.paths;
        let mut broken: usize = 0;
        let mut i: usize = 0;
        assert(paths.take(0) =~= Seq::empty());
        while i < self.pathfinder.paths.len()
            invariant
                i <= self.pathfinder.paths@.len(),
                broken <= i,
                paths == self@.pathfinder.paths,
                broken == broken_paths(paths.take(i as int)),
            decreases self.pathfinder.paths@.len() - i,
        {
            assert(paths.take(i + 1).drop_last() =~= paths.take(i as int));
            if self.pathfinder.paths.value_at(i).broken {
                broken += 1;
            }
            i += 1;
        }
        assert(paths.take(i as int) =~= paths);
        let ghost fl = |p: (PublicKey, Seq<(PeerId, PeerEntry)>)| p.1.len() as int;
        let ghost peers = self@.peers;
        let ghost lags = Seq::new(
            peers.len(),
            |i: int| (peers[i].0, group_lag(self@, peers[i].1)),
        );
        let mut total: usize = 0;
        let mut latencies: Vec<(PublicKey, u64)> = Vec::new();
        let mut n: usize = 0;
        assert(peers.take(0) =~= Seq::empty());
        while n < self.peers.len()
            invariant
                n <= self.peers@.len(),
                peers == self@.peers,
                fl == (|p: (PublicKey, Seq<(PeerId, PeerEntry)>)| p.1.len() as int),
                lags == Seq::new(
                    peers.len(),
                    |i: int| (peers[i].0, group_lag(self@, peers[i].1)),
                ),
                sum(peers, fl) <= usize::MAX,
                total == sum(peers.take(n as int), fl),
                latencies@ == lags.take(n as int),
            decreases self.peers@.len() - n,
        {
            let group = self.peers.value_at(n);
            assert(peers[n as int].1 == group@);
            proof {
                assert(peers.take(n + 1).drop_last() =~= peers.take(n as int));
                assert(peers =~= peers.take(n + 1) + peers.skip(n + 1));
                crate::seqs::lemma_sum_concat(peers.take(n + 1), peers.skip(n + 1), fl);
                crate::seqs::lemma_sum_bounds(peers.skip(n + 1), fl);
            }
            total += group.len();
            latencies.push((self.peers.key_at(n), self.first_lag(group)));
            assert(latencies@ =~= lags.take(n + 1));
            n += 1;
        }
        assert(peers.take(n as int) =~= peers);
        assert(lags.take(n as int) =~= lags);
        DebugSnapshot {
            tree_node_count: self.infos.len(),
            routing_peer_count: self.peers.len(),
            tree_root,
            our_coords,
            path_cache_count: self.pathfinder.paths.len(),
            broken_path_count: broken,
            pending_lookups,
            unresponded_peers: total.saturating_sub(self.responded.len()),
            peer_latencies_ns: latencies,
            delivery_queue_bytes,
        }
    }
}

// ---------------------------------------------------------------------------
// Laws
// ---------------------------------------------------------------------------

/// A request for a signature that came on a connection is answered on that connection, with the place
/// of its peer on the port of the connection, signed by us; one that came on none is not. Neither
/// changes anything.
pub proof fn lemma_request_is_answered<T: KeyTransform>(
    v: RouterView<T>,
    peer_id: PeerId,
    peer_key: PublicKey,
    req: SigReq,
    nonce: u64,
    nonces: Seq<u64>,
    c: Clock,
)
    requires
        router_wf(v),
    ensures
        ({
            let (u, sent) = msg_done(
                v,
                MsgView::HandleRequest { peer_id, peer_key, req },
                nonce,
                nonces,
                c,
            );
            let there = get(v.peers, peer_key) matches Some(g) && get(g, peer_id) is Some;
            &&& u == v
            &&& !there ==> sent.len() == 0
            &&& there ==> sent.len() == 1 && (sent[0] matches ActionView::SendSigRes {
                peer_id: id,
                res,
            } && id == peer_id && res.seq == req.seq && res.nonce == req.nonce && res.port == get(
                get(v.peers, peer_key)->0,
                peer_id,
            )->0.port)
        }),
{
    if let Some(g) = get(v.peers, peer_key) {
        crate::table::lemma_find(v.peers, peer_key);
        let i = crate::table::find(v.peers, peer_key);
        assert(crate::router::group_wf(v.peers[i].0, v.peers[i].1));
        if get(g, peer_id) is Some {
            crate::table::lemma_find(g, peer_id);
            let j = crate::table::find(g, peer_id);
            assert(g[j].1.id == g[j].0);
        }
    }
}

/// A filter from a peer is the one that counts for that peer from then on, and for no other. Nothing
/// is sent.
pub proof fn lemma_filter_is_taken<T: KeyTransform>(
    v: RouterView<T>,
    peer_key: PublicKey,
    filter: Set<int>,
    nonce: u64,
    nonces: Seq<u64>,
    c: Clock,
    k: PublicKey,
)
    ensures
        ({
            let (u, sent) = msg_done(v, MsgView::HandleBloom { peer_key, filter }, nonce, nonces, c);
            &&& sent.len() == 0
            &&& get(v.blooms, peer_key) matches Some(i) ==> (get(u.blooms, peer_key) matches Some(n)
                && n.recv == filter && n.send == i.send && n.on_tree == i.on_tree)
            &&& k != peer_key ==> get(u.blooms, k) == get(v.blooms, k)
            &&& u == (RouterView { blooms: u.blooms, ..v })
        }),
{
    if let Some(i) = get(v.blooms, peer_key) {
        let n = BloomInfoView { recv: filter, ..i };
        crate::table::lemma_put(v.blooms, peer_key, n);
        assert(get(put(v.blooms, peer_key, n), peer_key) == Some(n));
        assert(get(put(v.blooms, peer_key, n), k) == (if k == peer_key {
            Some(n)
        } else {
            get(v.blooms, k)
        }));
    }
}

/// A lookup is heard from neighbours in the tree only.
pub proof fn lemma_lookups_come_along_the_tree<T: KeyTransform>(
    v: RouterView<T>,
    peer_key: PublicKey,
    lookup: crate::wire::PathLookupView,
    nonce: u64,
    nonces: Seq<u64>,
    c: Clock,
)
    ensures
        !(get(v.blooms, peer_key) matches Some(i) && i.on_tree) ==> msg_done(
            v,
            MsgView::HandleLookup { peer_key, lookup },
            nonce,
            nonces,
            c,
        ) == (v, Seq::<ActionView>::empty()),
        get(v.blooms, peer_key) matches Some(i) && i.on_tree ==> msg_done(
            v,
            MsgView::HandleLookup { peer_key, lookup },
            nonce,
            nonces,
            c,
        ) == lookup_done(v, peer_key, lookup, c),
{
}

/// A lookup that is forced goes out although the application asked a short time ago: it is held back
/// only where a path is known and was asked for within the throttle. It goes to every neighbour in
/// the tree whose filter matches.
pub proof fn lemma_forced_lookup_goes_out<T: KeyTransform>(
    v: RouterView<T>,
    dest: PublicKey,
    nonce: u64,
    nonces: Seq<u64>,
    c: Clock,
)
    requires
        router_wf(v),
        !(get(v.pathfinder.paths, dest) matches Some(i) && elapsed(i.req_time, c.now)
            < v.config.path_throttle),
    ensures
        ({
            let (u, sent) = msg_done(v, MsgView::ForceLookup { dest }, nonce, nonces, c);
            let x = v.transform.transformed(dest);
            &&& get(u.pathfinder.rumors, x) is Some || x == v.transform.transformed(v.key)
            &&& forall|i: int|
                0 <= i < v.blooms.len() && (#[trigger] v.blooms[i]).1.on_tree && v.blooms[i].0 != v.key
                    && key_bits(x@).subset_of(v.blooms[i].1.recv) ==> (crate::discovery::best_peer(
                    v,
                    v.blooms[i].0,
                ) matches Some(id) ==> sent.contains(
                    ActionView::SendPathLookup {
                        peer_id: id,
                        lookup: crate::wire::PathLookupView {
                            source: v.key,
                            dest,
                            from: crate::tree::coords(v.infos, v.key),
                        },
                    },
                ))
        }),
{
    let x = v.transform.transformed(dest);
    let p = if has_key(v.pathfinder.rumors, x) {
        crate::pathfinder::rumor_marked(v.pathfinder, x, None)
    } else {
        rumor_ensured(v.pathfinder, x, c.now)
    };
    crate::table::lemma_put(
        v.pathfinder.rumors,
        x,
        PathRumorView { traffic: None, send_time: None, created: c.now },
    );
    if let Some(r) = get(v.pathfinder.rumors, x) {
        crate::table::lemma_put(v.pathfinder.rumors, x, PathRumorView { send_time: None, ..r });
    }
    assert(get(p.rumors, x) is Some);
    let u = with_pathfinder(
        v,
        crate::pathfinder::lookup_marked(p, dest, c.now),
    );
    let l = crate::wire::PathLookupView {
        source: v.key,
        dest,
        from: crate::tree::coords(v.infos, v.key),
    };
    crate::discovery::lemma_lookup_reaches(u, v.key, l, c);
}

/// Every connection is reported, with its port, its priority, its cost and the latency as far as it
/// was measured; and nothing else is.
pub proof fn lemma_every_connection_is_reported<T>(v: RouterView<T>, n: nat, i: int, j: int)
    requires
        0 <= i < n <= v.peers.len(),
        0 <= j < v.peers[i].1.len(),
    ensures
        exists|k: int|
            0 <= k < peers_report(v, n).len() && {
                let r = #[trigger] peers_report(v, n)[k];
                let e = v.peers[i].1[j].1;
                &&& r.key == v.peers[i].0
                &&& r.port == e.port
                &&& r.priority == e.prio
                &&& r.cost == cost_of(v, e.id)
                &&& r.latency_ns == (match get(v.lags, e.id) {
                    Some(l) => l,
                    None => 0,
                })
            },
    decreases n,
{
    let rest = peers_report(v, (n - 1) as nat);
    let all = peers_report(v, n);
    if i < n - 1 {
        lemma_every_connection_is_reported(v, (n - 1) as nat, i, j);
        let k = choose|k: int|
            0 <= k < rest.len() && {
                let r = #[trigger] rest[k];
                let e = v.peers[i].1[j].1;
                &&& r.key == v.peers[i].0
                &&& r.port == e.port
                &&& r.priority == e.prio
                &&& r.cost == cost_of(v, e.id)
                &&& r.latency_ns == (match get(v.lags, e.id) {
                    Some(l) => l,
                    None => 0,
                })
            };
        assert(all[k] == rest[k]);
    } else {
        assert(all[rest.len() + j] == group_report(v, v.peers[i].0, v.peers[i].1)[j]);
    }
}

/// A tick forgets what is old before it looks at the tree: only what was heard of within the timeout
/// is known in the round that follows, and our own place. A jump of the wall clock by thirty seconds
/// or more counts as a wish for a refresh, and nothing less does.
pub proof fn lemma_tick_forgets_and_refreshes<T: KeyTransform>(
    v: RouterView<T>,
    last_wall: Moment,
    wall: Moment,
    nonce: u64,
    nonces: Seq<u64>,
    c: Clock,
)
    requires
        router_wf(v),
    ensures
        exists|u: RouterView<T>|
            {
                &&& #[trigger] round(u, nonce, nonces, c.now) == ticked(
                    v,
                    last_wall,
                    wall,
                    nonce,
                    nonces,
                    c,
                )
                &&& (wall.secs - last_wall.secs) * 1_000_000_000 + wall.nanos - last_wall.nanos
                    >= 30_000_000_000 ==> u.refresh
                &&& u.refresh ==> v.refresh || (wall.secs - last_wall.secs) * 1_000_000_000 + wall.nanos
                    - last_wall.nanos >= 30_000_000_000 || (get(v.info_times, v.key) matches Some(t)
                    && elapsed(t, c.now) >= v.config.router_refresh)
                &&& forall|k: PublicKey| #[trigger]
                    get(u.infos, k) == (if k != v.key && (get(v.info_times, k) matches Some(t)
                        && elapsed(t, c.now) >= v.config.router_timeout) {
                        None
                    } else {
                        get(v.infos, k)
                    })
            },
{
    let jumped = wall.total() - last_wall.total() >= WALL_JUMP_THRESHOLD;
    let w = RouterView { refresh: v.refresh || jumped, ..v };
    let keys = expired_keys(w, w.info_times, c.now);
    let u = all_forgotten(w, keys);
    assert(router_wf(w));
    assert forall|k: PublicKey| #[trigger]
        get(u.infos, k) == (if k != v.key && (get(v.info_times, k) matches Some(t) && elapsed(t, c.now)
            >= v.config.router_timeout) {
            None
        } else {
            get(v.infos, k)
        }) by {
        crate::upkeep::lemma_expiry_forgets_exactly_the_old(w, c.now, k);
    }
    crate::upkeep::lemma_forgetting_and_refresh(w, c.now);
    assert(round(u, nonce, nonces, c.now) == ticked(v, last_wall, wall, nonce, nonces, c));
}

/// The latency that is reported of a peer is that of the first of its connections that was
/// measured: the ones before it were not. Where none was, it is zero.
pub proof fn lemma_first_measured_latency_is_reported<T>(
    v: RouterView<T>,
    group: Seq<(PeerId, PeerEntry)>,
    i: int,
)
    requires
        0 <= i <= group.len(),
        forall|j: int| 0 <= j < i ==> get(v.lags, (#[trigger] group[j]).0) is None,
    ensures
        i < group.len() && get(v.lags, group[i].0) is Some ==> get(v.lags, group[i].0) == Some(
            group_lag(v, group),
        ),
        i == group.len() ==> group_lag(v, group) == 0,
    decreases i,
{
    if i > 0 {
        let rest = group.drop_first();
        assert(get(v.lags, group[0].0) is None);
        assert forall|j: int| 0 <= j < i - 1 implies get(
            v.lags,
            (#[trigger] rest[j]).0,
        ) is None by {
            assert(rest[j] == group[j + 1]);
        }
        lemma_first_measured_latency_is_reported(v, rest, i - 1);
    }
}

/// Each broken path counts one, and no other path counts: a further path adds one if it is broken
/// and nothing if it is not.
pub proof fn lemma_broken_paths_are_counted(
    paths: Seq<(PublicKey, PathInfoView)>,
    more: (PublicKey, PathInfoView),
)
    ensures
        broken_paths(Seq::empty()) == 0,
        more.1.broken ==> broken_paths(paths.push(more)) == broken_paths(paths) + 1,
        !more.1.broken ==> broken_paths(paths.push(more)) == broken_paths(paths),
{
    crate::seqs::lemma_sum_push(
        paths,
        more,
        |p: (PublicKey, PathInfoView)| if p.1.broken { 1int } else { 0int },
    );
}

/// A pending lookup is reported with the key that is looked for, with who its packet is for, with
/// how long it has been waited for, and with whether it was sent.
pub proof fn lemma_pending_lookup_is_reported<T>(
    v: RouterView<T>,
    key: PublicKey,
    r: PathRumorView,
    now: u64,
)
    ensures
        ({
            let l = lookup_report(v, key, r, now);
            &&& l.xformed_key == key
            &&& r.traffic matches Some(t) ==> l.dest_key == Some(t.dest)
            &&& r.traffic is None ==> l.dest_key is None
            &&& r.created <= now ==> r.created + l.age_ns == now
            &&& r.created > now ==> l.age_ns == 0
            &&& l.sent <==> r.send_time is Some
        }),
{
}

/// No other connection is reported, and each is reported once: the connections to one more peer come
/// behind the others, one for each that there is.
pub proof fn lemma_each_connection_is_reported_once<T>(v: RouterView<T>, n: nat)
    requires
        n < v.peers.len(),
    ensures
        ({
            let before = peers_report(v, n);
            let after = peers_report(v, n + 1);
            &&& peers_report(v, 0).len() == 0
            &&& after.take(before.len() as int) == before
            &&& after.len() == before.len() + v.peers[n as int].1.len()
            &&& forall|j: int|
                before.len() <= j < after.len() ==> (#[trigger] after[j]).key == v.peers[n as int].0
                    && after[j].port == v.peers[n as int].1[j - before.len()].1.port
        }),
{
    let before = peers_report(v, n);
    let after = peers_report(v, n + 1);
    assert(after.take(before.len() as int) =~= before);
}

/// Nothing is asked for with a lookup but the path: it is sent out as a packet without a payload, from
/// us to the node that is looked for.
pub proof fn lemma_lookup_is_an_empty_packet<T: KeyTransform>(
    v: RouterView<T>,
    our_key: PublicKey,
    dest: PublicKey,
    nonce: u64,
    nonces: Seq<u64>,
    c: Clock,
)
    requires
        router_wf(v),
        get(v.pathfinder.paths, dest) is None,
        v.transform.transformed(dest) != v.transform.transformed(v.key),
    ensures
        ({
            let (u, sent) = msg_done(v, MsgView::SendLookup { our_key, dest }, nonce, nonces, c);
            let x = v.transform.transformed(dest);
            &&& get(u.pathfinder.rumors, x) matches Some(r) && (r.traffic matches Some(t) && t.payload.len()
                == 0 && t.source == our_key && t.dest == dest)
            &&& forall|m: int|
                0 <= m < sent.len() ==> (#[trigger] sent[m] matches ActionView::SendPathLookup {
                    lookup,
                    ..
                } && lookup.dest == dest && lookup.source == v.key)
        }),
{
    let x = v.transform.transformed(dest);
    let p = rumor_ensured(v.pathfinder, x, c.now);
    let w = with_pathfinder(v, p);
    assert(router_wf(w)) by {
        if !has_key(v.pathfinder.rumors, x) {
            crate::table::lemma_put(
                v.pathfinder.rumors,
                x,
                crate::pathfinder::PathRumorView {
                    traffic: None,
                    send_time: None,
                    created: c.now,
                },
            );
        }
        assert(crate::pathfinder::pathfinder_wf(p));
        assert(crate::router::cached_for_dest(p)) by {
            assert forall|k: PublicKey| #[trigger]
                get(p.paths, k) matches Some(i) ==> (i.cached_traffic matches Some(t) ==> t.dest
                    == k) by {
                assert(get(v.pathfinder.paths, k) == get(p.paths, k));
            }
        }
        assert forall|k: PublicKey| #[trigger] get(w.requests, k) matches Some(r) ==> r.seq
            <= crate::router::own_seq(w) + 1 by {
            assert(get(v.requests, k) == get(w.requests, k));
        }
        assert forall|k: PublicKey| #[trigger] get(w.responses, k) matches Some(r) ==> r.seq
            <= crate::router::own_seq(w) + 1 by {
            assert(get(v.responses, k) == get(w.responses, k));
        }
    }
    crate::discovery::lemma_packet_without_path_waits(w, empty_packet(our_key, dest), c);
}

} // verus!
