//! The router's peer connections and the exchange of signatures with them.
use vstd::prelude::*;
use crate::bloom::BloomFilter;
use crate::blooms::{fresh_info, KeyTransform};
use crate::bytes::PublicKey;
use crate::crypto::{ed25519_accepts, ed25519_public, ed25519_signature};
use crate::discovery::Outcome;
use crate::random::random_u64;
use crate::router::{
    actions_view, group_view, group_wf, keys_view, keyset_view, lemma_actions_push, own_seq,
    router_wf, seqs_in_step, ActionView, PeerEntry, PeerId, Router, RouterAction, RouterView,
    SigReqState, SigResState, UNKNOWN_LATENCY,
};
use crate::table::{
    del, distinct, find, get, has_key, lemma_del, lemma_find, lemma_mapped_del, lemma_mapped_find,
    lemma_mapped_put, lemma_put, put, KeyTable,
};
use crate::traffic::elapsed;
use crate::tree::{
    announce_of, counted, sig_res_bytes_for_sig, signed_position, wire_of, Infos,
};
use crate::wire::{array_of, lemma_array_of, PeerPort, SigReq, SigRes};

verus! {

/// The next signature request, with the random number `nonce`.
pub open spec fn next_req<T>(v: RouterView<T>, nonce: u64) -> SigReqState {
    SigReqState { seq: (own_seq(v) + 1) as u64, nonce }
}

/// Whether the counters of the router can still grow.
pub open spec fn has_room<T>(v: RouterView<T>) -> bool {
    own_seq(v) < u64::MAX - 1 && v.res_seq_ctr < u64::MAX
}

/// The announcements of the nodes `keys` that are known, sent on one connection.
pub open spec fn resent(infos: Infos, peer_id: PeerId, keys: Seq<(PublicKey, ())>) -> Seq<
    ActionView,
>
    decreases keys.len(),
{
    if keys.len() == 0 {
        Seq::empty()
    } else {
        let rest = resent(infos, peer_id, keys.drop_last());
        let k = keys.last().0;
        match get(infos, k) {
            Some(i) => rest.push(
                ActionView::SendAnnounce { peer_id, ann: wire_of(announce_of(i, k)) },
            ),
            None => rest,
        }
    }
}

/// The router with an entry for a peer that it had no connection to.
pub open spec fn introduced<T>(v: RouterView<T>, e: PeerEntry) -> RouterView<T> {
    if has_key(v.peers, e.key) {
        v
    } else {
        RouterView {
            peers: put(v.peers, e.key, Seq::empty()),
            sent: put(v.sent, e.key, Seq::empty()),
            ports: put(v.ports, e.port, e.key),
            blooms: if has_key(v.blooms, e.key) {
                v.blooms
            } else {
                put(v.blooms, e.key, fresh_info())
            },
            ..v
        }
    }
}

/// The router after a connection came up, and what is sent on it: the announcements that the
/// peer was sent on another connection, a signature request, and the filter last sent.
pub open spec fn peer_added<T>(v: RouterView<T>, e: PeerEntry, nonce: u64, now: u64) -> Outcome<T> {
    let u = introduced(v, e);
    let req = match get(v.requests, e.key) {
        Some(r) => r,
        None => next_req(v, nonce),
    };
    let end = RouterView {
        peers: put(u.peers, e.key, put(get(u.peers, e.key)->0, e.id, e)),
        lags: put(v.lags, e.id, UNKNOWN_LATENCY),
        requests: put(v.requests, e.key, req),
        responded: del(v.responded, e.id),
        sig_req_times: put(v.sig_req_times, e.id, now),
        ..u
    };
    let first = match get(v.sent, e.key) {
        Some(keys) => if has_key(v.peers, e.key) {
            resent(v.infos, e.id, keys)
        } else {
            Seq::empty()
        },
        None => Seq::empty(),
    };
    let asked = first.push(
        ActionView::SendSigReq { peer_id: e.id, req: SigReq { seq: req.seq, nonce: req.nonce } },
    );
    (
        end,
        match get(end.blooms, e.key) {
            Some(i) => asked.push(ActionView::SendBloom { peer_id: e.id, bloom: i.send }),
            None => asked,
        },
    )
}

/// A filter sent on every connection of a group.
pub open spec fn bloom_to_group(group: Seq<(PeerId, PeerEntry)>, bloom: Set<int>) -> Seq<
    ActionView,
> {
    Seq::new(
        group.len(),
        |i: int| ActionView::SendBloom { peer_id: group[i].1.id, bloom },
    )
}

/// The router after a connection went down: with its last connection a peer is forgotten; if
/// others are left, they are sent the filter again.
pub open spec fn peer_removed<T>(
    v: RouterView<T>,
    id: PeerId,
    key: PublicKey,
    port: PeerPort,
) -> Outcome<T> {
    let u = RouterView {
        lags: del(v.lags, id),
        responded: del(v.responded, id),
        sig_req_times: del(v.sig_req_times, id),
        ..v
    };
    match get(v.peers, key) {
        None => (u, Seq::empty()),
        Some(group) => {
            let left = del(group, id);
            if left.len() == 0 {
                (
                    RouterView {
                        peers: del(v.peers, key),
                        sent: del(v.sent, key),
                        ports: del(v.ports, port),
                        requests: del(v.requests, key),
                        responses: del(v.responses, key),
                        res_seqs: del(v.res_seqs, key),
                        ancs: del(v.ancs, key),
                        blooms: del(v.blooms, key),
                        ..u
                    },
                    Seq::empty(),
                )
            } else {
                (
                    RouterView { peers: put(v.peers, key, left), ..u },
                    match get(v.blooms, key) {
                        Some(i) => bloom_to_group(left, i.send),
                        None => Seq::empty(),
                    },
                )
            }
        },
    }
}

/// The answer to a signature request from the peer `p`: its place below us, signed.
pub open spec fn countersigned<T>(v: RouterView<T>, p: PeerEntry, req: SigReq) -> ActionView {
    ActionView::SendSigRes {
        peer_id: p.id,
        res: SigRes {
            seq: req.seq,
            nonce: req.nonce,
            port: p.port,
            psig: array_of::<64>(
                ed25519_signature(
                    v.secret,
                    signed_position(p.key, v.key, req.seq, req.nonce, p.port),
                ),
            ),
        },
    }
}

/// The latency estimate of a link after a round trip of `rtt`: twice the round trip for a link
/// that was not measured yet, else one eighth of the way towards it, where it counts for no
/// more than twice the estimate.
pub open spec fn next_lag(lag: u64, rtt: u64) -> u64 {
    if lag == UNKNOWN_LATENCY {
        counted((rtt * 2) as nat)
    } else {
        let capped = if rtt < lag * 2 {
            rtt as int
        } else {
            lag * 2
        };
        counted(((lag * 7) / 8 + capped / 8) as nat)
    }
}

/// The router after a signature response: only one that answers the open request counts, the
/// first one for each peer is kept, and the first one on each connection measures it.
pub open spec fn responded<T>(
    v: RouterView<T>,
    id: PeerId,
    key: PublicKey,
    res: SigRes,
    now: u64,
) -> RouterView<T> {
    let matching = get(v.requests, key) matches Some(r) && r.seq == res.seq && r.nonce == res.nonce;
    let u = if matching && !has_key(v.responses, key) {
        RouterView {
            res_seq_ctr: (v.res_seq_ctr + 1) as u64,
            res_seqs: put(v.res_seqs, key, (v.res_seq_ctr + 1) as u64),
            responses: put(
                v.responses,
                key,
                SigResState { seq: res.seq, nonce: res.nonce, port: res.port, psig: res.psig },
            ),
            ..v
        }
    } else {
        v
    };
    if matching && !has_key(v.responded, id) {
        let rtt = match get(v.sig_req_times, id) {
            Some(t) => elapsed(t, now),
            None => 0,
        };
        let lag = match get(v.lags, id) {
            Some(l) => l,
            None => UNKNOWN_LATENCY,
        };
        RouterView {
            responded: put(v.responded, id, ()),
            lags: put(v.lags, id, next_lag(lag, rtt)),
            ..u
        }
    } else {
        u
    }
}

/// Computes the latency estimate of a link after a round trip of `rtt`.
pub fn update_lag(lag: u64, rtt: u64) -> (r: u64)
    ensures
        r == next_lag(lag, rtt),
{
    if lag == UNKNOWN_LATENCY {
        return rtt.saturating_add(rtt);
    }
    let l: u128 = lag as u128;
    let t: u128 = rtt as u128;
    let capped: u128 = if t < l * 2 {
        t
    } else {
        l * 2
    };
    let sum: u128 = l * 7 / 8 + capped / 8;
    if sum <= u64::MAX as u128 {
        sum as u64
    } else {
        u64::MAX
    }
}

proof fn lemma_groups_put<T>(v: RouterView<T>, key: PublicKey, group: Seq<(PeerId, PeerEntry)>)
    requires
        router_wf(v),
        group_wf(key, group),
    ensures
        distinct(put(v.peers, key, group)),
        forall|i: int|
            0 <= i < put(v.peers, key, group).len() ==> group_wf(
                (#[trigger] put(v.peers, key, group)[i]).0,
                put(v.peers, key, group)[i].1,
            ),
{
    lemma_put(v.peers, key, group);
    lemma_find(v.peers, key);
    let p = put(v.peers, key, group);
    assert forall|i: int| 0 <= i < p.len() implies group_wf((#[trigger] p[i]).0, p[i].1) by {
        if has_key(v.peers, key) {
            if i != find(v.peers, key) {
                assert(p[i] == v.peers[i]);
            }
        } else if i < v.peers.len() {
            assert(p[i] == v.peers[i]);
        }
    }
}

proof fn lemma_introduced_wf<T>(v: RouterView<T>, e: PeerEntry)
    requires
        router_wf(v),
    ensures
        router_wf(introduced(v, e)),
        has_key(introduced(v, e).peers, e.key),
{
    let none = Seq::<(PeerId, PeerEntry)>::empty();
    lemma_groups_put(v, e.key, none);
    lemma_put(v.peers, e.key, none);
    lemma_put(v.sent, e.key, Seq::empty());
    lemma_put(v.ports, e.port, e.key);
    lemma_put(v.blooms, e.key, fresh_info());
    assert(get(put(v.peers, e.key, none), e.key) == Some(none));
    lemma_find(v.sent, e.key);
    let s = put(v.sent, e.key, Seq::empty());
    assert forall|i: int| 0 <= i < s.len() implies distinct((#[trigger] s[i]).1) by {
        if i < v.sent.len() && !(has_key(v.sent, e.key) && i == find(v.sent, e.key)) {
            assert(s[i] == v.sent[i]);
        }
    }
}

proof fn lemma_peer_added_wf<T>(v: RouterView<T>, e: PeerEntry, nonce: u64, now: u64)
    requires
        router_wf(v),
        own_seq(v) < u64::MAX,
    ensures
        router_wf(peer_added(v, e, nonce, now).0),
{
    lemma_introduced_wf(v, e);
    let u = introduced(v, e);
    let end = peer_added(v, e, nonce, now).0;
    lemma_find(u.peers, e.key);
    let g = get(u.peers, e.key)->0;
    assert(group_wf(u.peers[find(u.peers, e.key)].0, u.peers[find(u.peers, e.key)].1));
    lemma_put(g, e.id, e);
    lemma_find(g, e.id);
    let g2 = put(g, e.id, e);
    assert(group_wf(e.key, g2)) by {
        assert forall|j: int| 0 <= j < g2.len() implies (#[trigger] g2[j]).1.key == e.key
            && g2[j].1.id == g2[j].0 by {
            if j < g.len() && !(has_key(g, e.id) && j == find(g, e.id)) {
                assert(g2[j] == g[j]);
            }
        }
    }
    lemma_groups_put(u, e.key, g2);
    lemma_put(v.lags, e.id, UNKNOWN_LATENCY);
    let req = match get(v.requests, e.key) {
        Some(r) => r,
        None => next_req(v, nonce),
    };
    lemma_put(v.requests, e.key, req);
    lemma_del(v.responded, e.id);
    lemma_put(v.sig_req_times, e.id, now);
    assert(own_seq(end) == own_seq(v));
    assert(seqs_in_step(end)) by {
        assert forall|k: PublicKey| (#[trigger] get(end.requests, k)) is Some implies get(end.requests, k)->0.seq <= own_seq(end) + 1 by {
            assert(get(v.requests, k) is Some ==> get(v.requests, k)->0.seq <= own_seq(v) + 1);
        }
    }
}

proof fn lemma_peer_removed_wf<T>(v: RouterView<T>, id: PeerId, key: PublicKey, port: PeerPort)
    requires
        router_wf(v),
    ensures
        router_wf(peer_removed(v, id, key, port).0),
{
    let end = peer_removed(v, id, key, port).0;
    lemma_del(v.lags, id);
    lemma_del(v.responded, id);
    lemma_del(v.sig_req_times, id);
    lemma_find(v.peers, key);
    match get(v.peers, key) {
        None => {},
        Some(group) => {
            assert(group_wf(v.peers[find(v.peers, key)].0, v.peers[find(v.peers, key)].1));
            lemma_del(group, id);
            lemma_find(group, id);
            let left = del(group, id);
            assert(group_wf(key, left)) by {
                assert forall|j: int| 0 <= j < left.len() implies (#[trigger] left[j]).1.key == key
                    && left[j].1.id == left[j].0 by {
                    if has_key(group, id) {
                        let o = if j < find(group, id) {
                            j
                        } else {
                            j + 1
                        };
                        assert(left[j] == group[o]);
                    }
                }
            }
            lemma_groups_put(v, key, left);
            lemma_del(v.peers, key);
            lemma_del(v.sent, key);
            lemma_del(v.ports, port);
            lemma_del(v.requests, key);
            lemma_del(v.responses, key);
            lemma_del(v.res_seqs, key);
            lemma_del(v.ancs, key);
            lemma_del(v.blooms, key);
            lemma_find(v.sent, key);
            lemma_find(v.blooms, key);
            if left.len() == 0 {
                assert forall|i: int| 0 <= i < end.peers.len() implies group_wf(
                    (#[trigger] end.peers[i]).0,
                    end.peers[i].1,
                ) by {
                    let o = if i < find(v.peers, key) {
                        i
                    } else {
                        i + 1
                    };
                    assert(end.peers[i] == v.peers[o]);
                }
                assert forall|i: int| 0 <= i < end.sent.len() implies distinct(
                    (#[trigger] end.sent[i]).1,
                ) by {
                    let o = if !has_key(v.sent, key) || i < find(v.sent, key) {
                        i
                    } else {
                        i + 1
                    };
                    assert(end.sent[i] == v.sent[o]);
                }
                assert forall|i: int| 0 <= i < end.blooms.len() implies (
                #[trigger] end.blooms[i]).1.seq < crate::blooms::RESEND_ROUNDS by {
                    let o = if !has_key(v.blooms, key) || i < find(v.blooms, key) {
                        i
                    } else {
                        i + 1
                    };
                    assert(end.blooms[i] == v.blooms[o]);
                }
                assert(own_seq(end) == own_seq(v));
                assert(seqs_in_step(end)) by {
                    assert forall|k: PublicKey| (#[trigger] get(end.requests, k)) is Some implies get(end.requests, k)->0.seq <= own_seq(end) + 1 by {
                        assert(get(v.requests, k) is Some);
                    }
                    assert forall|k: PublicKey| (#[trigger] get(end.responses, k)) is Some implies get(end.responses, k)->0.seq <= own_seq(end) + 1 by {
                        assert(get(v.responses, k) is Some);
                    }
                }
            }
        },
    }
}

impl<T: KeyTransform> Router<T> {
    /// Whether the counters of the router can still grow.
    pub fn can_grow(&self) -> (r: bool)
        ensures
            r == has_room(self@),
    {
        let seq: u64 = match self.infos.get(&self.crypto.public_key) {
            Some(i) => i.seq,
            None => 0,
        };
        seq < u64::MAX - 1 && self.res_seq_ctr < u64::MAX
    }

    /// The next signature request, with the random number `nonce`.
    pub(crate) fn new_req_with(&self, nonce: u64) -> (r: SigReqState)
        requires
            own_seq(self@) < u64::MAX,
        ensures
            r == next_req(self@, nonce),
    {
        let seq: u64 = match self.infos.get(&self.crypto.public_key) {
            Some(i) => i.seq,
            None => 0,
        };
        SigReqState { seq: seq + 1, nonce }
    }

    fn resend(&self, peer_id: PeerId, keys: &KeyTable<PublicKey, ()>) -> (actions: Vec<RouterAction>)
        ensures
            actions_view(actions@) == resent(self@.infos, peer_id, keys@),
    {
        let mut actions: Vec<RouterAction> = Vec::new();
        let mut i: usize = 0;
        assert(keys@.take(0) =~= Seq::empty());
        assert(actions_view(actions@) =~= Seq::empty());
        while i < keys.len()
            invariant
                i <= keys@.len(),
                actions_view(actions@) == resent(self@.infos, peer_id, keys@.take(i as int)),
            decreases keys@.len() - i,
        {
            assert(keys@.take(i + 1).drop_last() =~= keys@.take(i as int));
            let k = keys.key_at(i);
            match self.infos.get(&k) {
                Some(info) => {
                    let a = RouterAction::SendAnnounce {
                        peer_id,
                        ann: info.get_announce(k).to_wire(),
                    };
                    proof {
                        lemma_actions_push(actions@, a);
                    }
                    actions.push(a);
                },
                None => {},
            }
            i += 1;
        }
        assert(keys@.take(i as int) =~= keys@);
        actions
    }

    fn introduce(&mut self, e: &PeerEntry)
        requires
            old(self).wf(),
        ensures
            final(self).wf(),
            final(self)@ == introduced(old(self)@, *e),
            has_key(final(self).peers@, e.key),
    {
        proof {
            lemma_introduced_wf(self@, *e);
            lemma_mapped_find(self.peers@, group_view(), e.key);
        }
        if !self.peers.contains_key(&e.key) {
            let group: KeyTable<PeerId, PeerEntry> = KeyTable::new();
            let keys: KeyTable<PublicKey, ()> = KeyTable::new();
            proof {
                lemma_mapped_put(self.peers@, group_view(), e.key, group);
                lemma_mapped_put(self.sent@, keyset_view(), e.key, keys);
                assert(group@ =~= Seq::empty());
                assert(keys@ =~= Seq::empty());
            }
            self.peers.insert(e.key, group);
            self.sent.insert(e.key, keys);
            self.ports.insert(e.port, e.key);
            self.blooms.add_info(e.key);
            proof {
                lemma_mapped_find(self.peers@, group_view(), e.key);
            }
        }
    }

    /// Adds a peer connection, with the random number `nonce` for the signature request.
    /// Returns actions to execute.
    pub fn add_peer_with(&mut self, entry: PeerEntry, nonce: u64, now: u64) -> (actions: Vec<
        RouterAction,
    >)
        requires
            old(self).wf(),
            own_seq(old(self)@) < u64::MAX,
        ensures
            final(self).wf(),
            (final(self)@, actions_view(actions@)) == peer_added(old(self)@, entry, nonce, now),
    {
        let ghost v = self@;
        let key = entry.key;
        let peer_id: PeerId = entry.id;
        proof {
            lemma_peer_added_wf(v, entry, nonce, now);
            lemma_mapped_find(self.peers@, group_view(), key);
            lemma_mapped_find(self.sent@, keyset_view(), key);
        }
        let mut actions: Vec<RouterAction> = Vec::new();
        assert(actions_view(actions@) =~= Seq::empty());
        if self.peers.contains_key(&key) {
            match self.sent.get(&key) {
                Some(keys) => {
                    actions = self.resend(peer_id, keys);
                },
                None => {},
            }
        }
        self.introduce(&entry);
        let ghost u = self@;
        proof {
            lemma_mapped_find(self.peers@, group_view(), key);
            lemma_find(u.peers, key);
        }
        let at: usize = match self.peers.position(&key) {
            Some(at) => at,
            None => 0,
        };
        let group = self.peers.value_at_mut(at);
        assert(get(u.peers, key) == Some(group@));
        group.insert(peer_id, entry);
        assert(self@.peers =~= put(u.peers, key, put(get(u.peers, key)->0, peer_id, entry)));
        self.lags.insert(peer_id, UNKNOWN_LATENCY);
        let open: Option<SigReqState> = match self.requests.get(&key) {
            Some(r) => Some(*r),
            None => None,
        };
        let req: SigReqState = match open {
            Some(r) => r,
            None => self.new_req_with(nonce),
        };
        self.requests.insert(key, req);
        let _ = self.responded.remove(&peer_id);
        self.sig_req_times.insert(peer_id, now);
        let a = RouterAction::SendSigReq {
            peer_id,
            req: SigReq { seq: req.seq, nonce: req.nonce },
        };
        proof {
            lemma_actions_push(actions@, a);
        }
        actions.push(a);
        match self.blooms.get_send_bloom(&key) {
            Some(bloom) => {
                let b = RouterAction::SendBloom { peer_id, bloom };
                proof {
                    lemma_actions_push(actions@, b);
                }
                actions.push(b);
            },
            None => {},
        }
        assert(self@ == peer_added(v, entry, nonce, now).0);
        actions
    }

    /// Adds a peer connection. Returns actions to execute.
    pub fn add_peer(&mut self, entry: PeerEntry, now: u64) -> (actions: Vec<RouterAction>)
        requires
            old(self).wf(),
            own_seq(old(self)@) < u64::MAX,
        ensures
            final(self).wf(),
            exists|nonce: u64|
                (final(self)@, actions_view(actions@)) == #[trigger] peer_added(
                    old(self)@,
                    entry,
                    nonce,
                    now,
                ),
    {
        let nonce: u64 = random_u64();
        self.add_peer_with(entry, nonce, now)
    }

    /// Removes a peer connection. Returns actions to execute.
    pub fn remove_peer(&mut self, peer_id: PeerId, key: PublicKey, port: PeerPort) -> (actions: Vec<
        RouterAction,
    >)
        requires
            old(self).wf(),
        ensures
            final(self).wf(),
            (final(self)@, actions_view(actions@)) == peer_removed(
                old(self)@,
                peer_id,
                key,
                port,
            ),
    {
        let ghost v = self@;
        let mut actions: Vec<RouterAction> = Vec::new();
        assert(actions_view(actions@) =~= Seq::empty());
        proof {
            lemma_peer_removed_wf(v, peer_id, key, port);
            lemma_mapped_find(self.peers@, group_view(), key);
            lemma_mapped_del(self.peers@, group_view(), key);
            lemma_mapped_del(self.sent@, keyset_view(), key);
            lemma_mapped_del(self.ancs@, keys_view(), key);
            lemma_find(v.peers, key);
            lemma_del(self.cache@, key);
        }
        let _ = self.lags.remove(&peer_id);
        let _ = self.responded.remove(&peer_id);
        let _ = self.sig_req_times.remove(&peer_id);
        match self.peers.position(&key) {
            Some(at) => {
                let ghost group = get(v.peers, key)->0;
                let last: bool = {
                    let g = self.peers.value_at(at);
                    assert(g@ == group);
                    g.len() == 0 || (g.len() == 1 && g.contains_key(&peer_id))
                };
                proof {
                    lemma_find(group, peer_id);
                }
                if last {
                    assert(del(group, peer_id).len() == 0);
                    let _ = self.peers.remove(&key);
                    let _ = self.sent.remove(&key);
                    let _ = self.ports.remove(&port);
                    let _ = self.requests.remove(&key);
                    let _ = self.responses.remove(&key);
                    let _ = self.res_seqs.remove(&key);
                    let _ = self.ancs.remove(&key);
                    let _ = self.cache.remove(&key);
                    self.blooms.remove_info(&key);
                    assert(self@ == peer_removed(v, peer_id, key, port).0);
                } else {
                    let g = self.peers.value_at_mut(at);
                    let _ = g.remove(&peer_id);
                    assert(self@.peers =~= put(v.peers, key, del(group, peer_id)));
                    assert(self@ == peer_removed(v, peer_id, key, port).0);
                    let left = self.peers.value_at(at);
                    match self.blooms.get_send_bloom(&key) {
                        Some(bloom) => {
                            let mut i: usize = 0;
                            while i < left.len()
                                invariant
                                    i <= left@.len(),
                                    actions_view(actions@) == bloom_to_group(left@, bloom@).take(
                                        i as int,
                                    ),
                                decreases left@.len() - i,
                            {
                                let a = RouterAction::SendBloom {
                                    peer_id: left.value_at(i).id,
                                    bloom: bloom.clone(),
                                };
                                proof {
                                    lemma_actions_push(actions@, a);
                                }
                                actions.push(a);
                                assert(actions_view(actions@) =~= bloom_to_group(
                                    left@,
                                    bloom@,
                                ).take(i + 1));
                                i += 1;
                            }
                            assert(bloom_to_group(left@, bloom@).take(i as int) =~= bloom_to_group(
                                left@,
                                bloom@,
                            ));
                        },
                        None => {},
                    }
                }
            },
            None => {},
        }
        actions
    }

    /// Handles an incoming signature request from a peer.
    pub fn handle_request_with_data(&self, peer: &PeerEntry, req: &SigReq) -> (a: RouterAction)
        ensures
            a@ == countersigned(self@, *peer, *req),
            self.crypto.wf() ==> (a@ matches ActionView::SendSigRes { peer_id, res }
                && ed25519_accepts(
                self@.key@,
                signed_position(peer.key, self@.key, req.seq, req.nonce, peer.port),
                res.psig@,
            )),
    {
        let res_bytes = sig_res_bytes_for_sig(
            &peer.key,
            &self.crypto.public_key,
            req.seq,
            req.nonce,
            peer.port,
        );
        let psig = self.crypto.sign(&res_bytes);
        proof {
            lemma_array_of(psig);
        }
        RouterAction::SendSigRes {
            peer_id: peer.id,
            res: SigRes { seq: req.seq, nonce: req.nonce, port: peer.port, psig },
        }
    }

    /// Handles a signature response from a peer.
    pub fn handle_response(&mut self, peer_id: PeerId, key: &PublicKey, res: &SigRes, now: u64)
        requires
            old(self).wf(),
            old(self)@.res_seq_ctr < u64::MAX,
        ensures
            final(self).wf(),
            final(self)@ == responded(old(self)@, peer_id, *key, *res, now),
    {
        let ghost v = self@;
        let req_match: bool = match self.requests.get(key) {
            Some(r) => r.seq == res.seq && r.nonce == res.nonce,
            None => false,
        };
        let rtt: u64 = match self.sig_req_times.get(&peer_id) {
            Some(t) => now.saturating_sub(*t),
            None => 0,
        };
        if !self.responses.contains_key(key) && req_match {
            self.res_seq_ctr = self.res_seq_ctr + 1;
            proof {
                assert(get(v.requests, *key)->0.seq <= own_seq(v) + 1);
                lemma_put(
                    v.responses,
                    *key,
                    SigResState { seq: res.seq, nonce: res.nonce, port: res.port, psig: res.psig },
                );
                lemma_put(v.res_seqs, *key, (v.res_seq_ctr + 1) as u64);
            }
            self.res_seqs.insert(*key, self.res_seq_ctr);
            self.responses.insert(
                *key,
                SigResState { seq: res.seq, nonce: res.nonce, port: res.port, psig: res.psig },
            );
            assert forall|k: PublicKey| (#[trigger] get(self@.responses, k)) is Some implies get(self@.responses, k)->0.seq <= own_seq(self@) + 1 by {
                assert(get(v.responses, k) is Some ==> get(v.responses, k)->0.seq <= own_seq(v) + 1);
            }
        }
        if !self.responded.contains_key(&peer_id) && req_match {
            let lag: u64 = match self.lags.get(&peer_id) {
                Some(l) => *l,
                None => UNKNOWN_LATENCY,
            };
            let new_lag: u64 = update_lag(lag, rtt);
            proof {
                lemma_put(v.responded, peer_id, ());
                lemma_put(v.lags, peer_id, new_lag);
            }
            self.responded.insert(peer_id, ());
            self.lags.insert(peer_id, new_lag);
        }
        assert(self@ == responded(v, peer_id, *key, *res, now));
    }

    /// Handles an incoming bloom filter from a peer.
    pub fn handle_bloom(&mut self, peer_key: &PublicKey, filter: BloomFilter)
        requires
            old(self).wf(),
        ensures
            final(self).wf(),
            final(self)@ == (RouterView {
                blooms: (match get(old(self)@.blooms, *peer_key) {
                    Some(i) => put(
                        old(self)@.blooms,
                        *peer_key,
                        crate::blooms::BloomInfoView { recv: filter@, ..i },
                    ),
                    None => old(self)@.blooms,
                }),
                ..old(self)@
            }),
    {
        self.blooms.handle_bloom(peer_key, filter);
    }
}

// ---------------------------------------------------------------------------
// Laws
// ---------------------------------------------------------------------------

/// A response that does not answer the open request changes nothing.
pub proof fn lemma_stale_response_is_ignored<T>(
    v: RouterView<T>,
    id: PeerId,
    key: PublicKey,
    res: SigRes,
    now: u64,
)
    requires
        !(get(v.requests, key) matches Some(r) && r.seq == res.seq && r.nonce == res.nonce),
    ensures
        responded(v, id, key, res, now) == v,
{
}

/// A second response on the same connection changes nothing.
pub proof fn lemma_response_counts_once<T>(
    v: RouterView<T>,
    id: PeerId,
    key: PublicKey,
    res: SigRes,
    now: u64,
    later: u64,
)
    ensures
        responded(responded(v, id, key, res, now), id, key, res, later) == responded(
            v,
            id,
            key,
            res,
            now,
        ),
{
    let r = SigResState { seq: res.seq, nonce: res.nonce, port: res.port, psig: res.psig };
    lemma_put(v.responses, key, r);
    lemma_put(v.responded, id, ());
    let u = responded(v, id, key, res, now);
    assert(get(put(v.responses, key, r), key) is Some);
    assert(get(put(v.responded, id, ()), id) is Some);
    assert(get(u.responses, key) is Some == has_key(u.responses, key));
    assert(get(u.responded, id) is Some == has_key(u.responded, id));
}

/// A connection that came up and went down again leaves no trace of a peer that had none
/// before: it is in none of the peer tables.
pub proof fn lemma_last_connection_takes_the_peer_along<T>(
    v: RouterView<T>,
    e: PeerEntry,
    nonce: u64,
    now: u64,
)
    requires
        router_wf(v),
        own_seq(v) < u64::MAX,
        !has_key(v.peers, e.key),
    ensures
        ({
            let u = peer_added(v, e, nonce, now).0;
            let w = peer_removed(u, e.id, e.key, e.port).0;
            &&& has_key(u.peers, e.key)
            &&& !has_key(w.peers, e.key)
            &&& !has_key(w.sent, e.key)
            &&& !has_key(w.ports, e.port)
            &&& !has_key(w.blooms, e.key)
            &&& !has_key(w.lags, e.id)
        }),
{
    let u = peer_added(v, e, nonce, now).0;
    let w = peer_removed(u, e.id, e.key, e.port).0;
    lemma_peer_added_wf(v, e, nonce, now);
    let none = Seq::<(PeerId, PeerEntry)>::empty();
    lemma_put(v.peers, e.key, none);
    let i = introduced(v, e);
    assert(get(i.peers, e.key) == Some(none));
    lemma_find(none, e.id);
    let g = none.push((e.id, e));
    assert(put(none, e.id, e) =~= g);
    lemma_put(i.peers, e.key, g);
    assert(get(u.peers, e.key) == Some(g));
    crate::table::lemma_find_at(g, e.id, 0);
    assert(del(g, e.id).len() == 0);
    lemma_del(u.peers, e.key);
    lemma_del(u.sent, e.key);
    lemma_del(u.ports, e.port);
    lemma_del(u.blooms, e.key);
    lemma_del(u.lags, e.id);
    assert(get(w.peers, e.key) is None);
    assert(get(w.sent, e.key) is None);
    assert(get(w.ports, e.port) is None);
    assert(get(w.blooms, e.key) is None);
    assert(get(w.lags, e.id) is None);
}

/// The latency estimate moves an eighth of the way to each new round trip, up to rounding, and no
/// round trip counts for more than twice the estimate. The first measurement counts twice.
pub proof fn lemma_lag_moves_towards_the_round_trip(lag: u64, rtt: u64)
    requires
        lag <= u64::MAX / 2,
        rtt <= u64::MAX / 2,
    ensures
        lag == 5_000_000_000 ==> next_lag(lag, rtt) == 2 * rtt,
        lag != 5_000_000_000 && rtt <= 2 * lag ==> 7 * lag + rtt - 16 < 8 * next_lag(lag, rtt) <= 7 * lag
            + rtt,
        lag != 5_000_000_000 && rtt > 2 * lag ==> 9 * lag - 16 < 8 * next_lag(lag, rtt) <= 9 * lag,
{
}

/// The first answer of a peer to the open request is kept as it is; a later one for the same request
/// changes nothing of it. The first answer on a connection measures that connection, by the time
/// since the request went out on it, and no other.
pub proof fn lemma_answer_is_kept_and_measured<T>(
    v: RouterView<T>,
    id: PeerId,
    key: PublicKey,
    res: SigRes,
    now: u64,
    k: PublicKey,
    other: PeerId,
)
    requires
        get(v.requests, key) matches Some(r) && r.seq == res.seq && r.nonce == res.nonce,
    ensures
        ({
            let u = responded(v, id, key, res, now);
            &&& get(u.responses, k) == (if k != key || get(v.responses, key) is Some {
                get(v.responses, k)
            } else {
                Some(SigResState { seq: res.seq, nonce: res.nonce, port: res.port, psig: res.psig })
            })
            &&& get(u.responded, id) is Some
            &&& other != id || get(v.responded, id) is Some ==> get(u.lags, other) == get(v.lags, other)
            &&& get(v.responded, id) is None ==> (get(v.sig_req_times, id) matches Some(t) ==> (get(
                v.lags,
                id,
            ) matches Some(lag) ==> get(u.lags, id) == Some(next_lag(lag, elapsed(t, now)))))
            &&& u.infos == v.infos && u.peers == v.peers && u.requests == v.requests
        }),
{
    let r = SigResState { seq: res.seq, nonce: res.nonce, port: res.port, psig: res.psig };
    lemma_put(v.responses, key, r);
    lemma_put(v.responded, id, ());
    assert(get(put(v.responses, key, r), k) == (if k == key { Some(r) } else { get(v.responses, k) }));
    assert(get(put(v.responded, id, ()), id) is Some);
    assert forall|lag: u64| #[trigger]
        get(put(v.lags, id, lag), other) == (if other == id { Some(lag) } else { get(v.lags, other) }) by {
        lemma_put(v.lags, id, lag);
    }
    assert forall|lag: u64| #[trigger] get(put(v.lags, id, lag), id) == Some(lag) by {
        lemma_put(v.lags, id, lag);
    }
}

/// A connection that came up is one of its peer's, and the peer is asked on it to sign our next
/// place, or the one that it was asked for already. Its latency is not known. No other connection
/// is touched. The peer is sent the filter that it was sent last.
pub proof fn lemma_new_connection_is_asked<T>(
    v: RouterView<T>,
    e: PeerEntry,
    nonce: u64,
    now: u64,
    k: PublicKey,
    id: PeerId,
)
    requires
        router_wf(v),
        own_seq(v) < u64::MAX,
    ensures
        ({
            let (u, sent) = peer_added(v, e, nonce, now);
            &&& get(u.peers, e.key) matches Some(g) && get(g, e.id) == Some(e)
            &&& k != e.key ==> get(u.peers, k) == get(v.peers, k)
            &&& id != e.id ==> (get(v.peers, e.key) matches Some(g) ==> get(get(u.peers, e.key)->0, id)
                == get(g, id))
            &&& get(u.lags, e.id) == Some(5_000_000_000u64)
            &&& get(u.sig_req_times, e.id) == Some(now)
            &&& get(u.responded, e.id) is None
            &&& get(u.requests, e.key) matches Some(r) && sent.contains(
                ActionView::SendSigReq { peer_id: e.id, req: SigReq { seq: r.seq, nonce: r.nonce } },
            ) && (get(v.requests, e.key) matches Some(q) ==> r == q) && (get(v.requests, e.key) is None
                ==> r.seq == own_seq(v) + 1 && r.nonce == nonce)
            &&& get(u.blooms, e.key) matches Some(i) ==> sent.contains(
                ActionView::SendBloom { peer_id: e.id, bloom: i.send },
            )
        }),
{
    let (u, sent) = peer_added(v, e, nonce, now);
    let w = introduced(v, e);
    let none = Seq::<(PeerId, PeerEntry)>::empty();
    lemma_introduced_wf(v, e);
    lemma_put(v.peers, e.key, none);
    assert(get(put(v.peers, e.key, none), e.key) == Some(none));
    assert(get(put(v.peers, e.key, none), k) == (if k == e.key { Some(none) } else { get(v.peers, k) }));
    let g = get(w.peers, e.key)->0;
    lemma_put(g, e.id, e);
    lemma_put(w.peers, e.key, put(g, e.id, e));
    assert(get(u.peers, e.key) == Some(put(g, e.id, e)));
    assert(get(put(g, e.id, e), id) == (if id == e.id { Some(e) } else { get(g, id) }));
    assert(get(put(g, e.id, e), e.id) == Some(e));
    assert(get(u.peers, k) == (if k == e.key { Some(put(g, e.id, e)) } else { get(w.peers, k) }));
    lemma_put(v.lags, e.id, UNKNOWN_LATENCY);
    lemma_put(v.sig_req_times, e.id, now);
    lemma_del(v.responded, e.id);
    let r = match get(v.requests, e.key) {
        Some(r) => r,
        None => next_req(v, nonce),
    };
    lemma_put(v.requests, e.key, r);
    assert(get(u.requests, e.key) == Some(r));
    let first = match get(v.sent, e.key) {
        Some(keys) => if has_key(v.peers, e.key) {
            resent(v.infos, e.id, keys)
        } else {
            Seq::empty()
        },
        None => Seq::empty(),
    };
    assert(sent[first.len() as int] == (ActionView::SendSigReq {
        peer_id: e.id,
        req: SigReq { seq: r.seq, nonce: r.nonce },
    }));
    if let Some(i) = get(u.blooms, e.key) {
        assert(sent[first.len() as int + 1] == (ActionView::SendBloom { peer_id: e.id, bloom: i.send }));
    }
}

proof fn lemma_resent_has(infos: Infos, peer_id: PeerId, keys: Seq<(PublicKey, ())>, i: int)
    requires
        0 <= i < keys.len(),
        get(infos, keys[i].0) is Some,
    ensures
        resent(infos, peer_id, keys).contains(
            ActionView::SendAnnounce {
                peer_id,
                ann: wire_of(announce_of(get(infos, keys[i].0)->0, keys[i].0)),
            },
        ),
    decreases keys.len(),
{
    let d = keys.drop_last();
    let all = resent(infos, peer_id, keys);
    let a = ActionView::SendAnnounce {
        peer_id,
        ann: wire_of(announce_of(get(infos, keys[i].0)->0, keys[i].0)),
    };
    if i < d.len() {
        lemma_resent_has(infos, peer_id, d, i);
        let rest = resent(infos, peer_id, d);
        assert(d[i] == keys[i]);
        let j = choose|j: int| 0 <= j < rest.len() && rest[j] == a;
        assert(all[j] == a);
    } else {
        assert(all[all.len() - 1] == a);
    }
}

/// On a further connection to a peer it is sent again everything that it was sent before and that is
/// still known.
pub proof fn lemma_further_connection_is_told_all<T>(
    v: RouterView<T>,
    e: PeerEntry,
    nonce: u64,
    now: u64,
    i: int,
)
    requires
        has_key(v.peers, e.key),
        get(v.sent, e.key) matches Some(keys) && 0 <= i < keys.len() && get(v.infos, keys[i].0) is Some,
    ensures
        ({
            let k = get(v.sent, e.key)->0[i].0;
            peer_added(v, e, nonce, now).1.contains(
                ActionView::SendAnnounce {
                    peer_id: e.id,
                    ann: wire_of(announce_of(get(v.infos, k)->0, k)),
                },
            )
        }),
{
    let keys = get(v.sent, e.key)->0;
    let first = resent(v.infos, e.id, keys);
    let sent = peer_added(v, e, nonce, now).1;
    lemma_resent_has(v.infos, e.id, keys, i);
    let a = ActionView::SendAnnounce {
        peer_id: e.id,
        ann: wire_of(announce_of(get(v.infos, keys[i].0)->0, keys[i].0)),
    };
    let j = choose|j: int| 0 <= j < first.len() && first[j] == a;
    assert(sent[j] == a);
}

/// A connection that goes down takes nothing else along while its peer has another: the others stay
/// and are sent the filter again, and what is known of the peer stays too. Other peers are not
/// touched in any case.
pub proof fn lemma_other_connections_stay<T>(
    v: RouterView<T>,
    id: PeerId,
    key: PublicKey,
    port: PeerPort,
    other: PeerId,
    k: PublicKey,
)
    requires
        router_wf(v),
    ensures
        ({
            let (u, sent) = peer_removed(v, id, key, port);
            &&& get(u.lags, id) is None
            &&& k != key ==> get(u.peers, k) == get(v.peers, k) && get(u.blooms, k) == get(v.blooms, k)
                && get(u.responses, k) == get(v.responses, k) && get(u.sent, k) == get(v.sent, k)
            &&& other != id && (get(v.peers, key) matches Some(g) && get(g, other) is Some) ==> {
                &&& get(u.peers, key) matches Some(g) && get(g, other) == get(get(v.peers, key)->0, other)
                    && get(g, id) is None
                &&& u.blooms == v.blooms && u.sent == v.sent && u.responses == v.responses && u.requests
                    == v.requests && u.ports == v.ports
                &&& get(v.blooms, key) matches Some(i) ==> sent.contains(
                    ActionView::SendBloom {
                        peer_id: get(get(v.peers, key)->0, other)->0.id,
                        bloom: i.send,
                    },
                )
            }
        }),
{
    lemma_del(v.lags, id);
    lemma_del(v.peers, key);
    lemma_del(v.blooms, key);
    lemma_del(v.responses, key);
    lemma_del(v.sent, key);
    assert(get(del(v.peers, key), k) == (if k == key { None } else { get(v.peers, k) }));
    assert(get(del(v.blooms, key), k) == (if k == key { None } else { get(v.blooms, k) }));
    assert(get(del(v.responses, key), k) == (if k == key { None } else { get(v.responses, k) }));
    assert(get(del(v.sent, key), k) == (if k == key { None } else { get(v.sent, k) }));
    if let Some(g) = get(v.peers, key) {
        lemma_find(v.peers, key);
        assert(group_wf(v.peers[find(v.peers, key)].0, v.peers[find(v.peers, key)].1));
        lemma_del(g, id);
        let left = del(g, id);
        lemma_put(v.peers, key, left);
        assert(get(put(v.peers, key, left), k) == (if k == key { Some(left) } else { get(v.peers, k) }));
        if other != id && get(g, other) is Some {
            assert(get(left, other) == get(g, other));
            lemma_find(left, other);
            assert(left.len() > 0);
            if let Some(i) = get(v.blooms, key) {
                let at = find(left, other);
                assert(bloom_to_group(left, i.send)[at] == (ActionView::SendBloom {
                    peer_id: left[at].1.id,
                    bloom: i.send,
                }));
            }
        }
    }
}

/// The place that we sign for a peer is one that it can announce: with its own signature on the same
/// place, on a port other than zero, its announcement below us is valid.
pub proof fn lemma_signed_place_can_be_announced<T>(
    v: RouterView<T>,
    p: PeerEntry,
    req: SigReq,
    sig: crate::bytes::Sig,
)
    requires
        router_wf(v),
        p.port != 0,
        ed25519_accepts(
            p.key@,
            signed_position(p.key, v.key, req.seq, req.nonce, p.port),
            sig@,
        ),
        ({
            let place = signed_position(p.key, v.key, req.seq, req.nonce, p.port);
            ed25519_accepts(
                ed25519_public(v.secret),
                place,
                array_of::<64>(ed25519_signature(v.secret, place))@,
            )
        }),
    ensures
        countersigned(v, p, req) matches ActionView::SendSigRes { peer_id, res } && peer_id == p.id
            && res.seq == req.seq && res.nonce == req.nonce && res.port == p.port
            && crate::tree::announce_valid(
            crate::tree::RouterAnnounce {
                key: p.key,
                parent: v.key,
                seq: res.seq,
                nonce: res.nonce,
                port: res.port,
                psig: res.psig,
                sig,
            },
        ),
{
}

proof fn lemma_resent_only(infos: Infos, peer_id: PeerId, keys: Seq<(PublicKey, ())>, m: int)
    requires
        0 <= m < resent(infos, peer_id, keys).len(),
    ensures
        exists|i: int|
            0 <= i < keys.len() && get(infos, (#[trigger] keys[i]).0) is Some && resent(
                infos,
                peer_id,
                keys,
            )[m] == (ActionView::SendAnnounce {
                peer_id,
                ann: wire_of(announce_of(get(infos, keys[i].0)->0, keys[i].0)),
            }),
    decreases keys.len(),
{
    let d = keys.drop_last();
    let rest = resent(infos, peer_id, d);
    let all = resent(infos, peer_id, keys);
    if m < rest.len() {
        lemma_resent_only(infos, peer_id, d, m);
        assert(all[m] == rest[m]);
        let i = choose|i: int|
            0 <= i < d.len() && get(infos, (#[trigger] d[i]).0) is Some && rest[m] == (
            ActionView::SendAnnounce {
                peer_id,
                ann: wire_of(announce_of(get(infos, d[i].0)->0, d[i].0)),
            });
        assert(keys[i] == d[i]);
    } else {
        assert(keys[keys.len() - 1] == keys.last());
    }
}

/// A new connection is sent nothing else: what its peer was sent before, one request and one filter.
pub proof fn lemma_new_connection_is_sent_nothing_else<T>(
    v: RouterView<T>,
    e: PeerEntry,
    nonce: u64,
    now: u64,
    m: int,
)
    requires
        0 <= m < peer_added(v, e, nonce, now).1.len(),
    ensures
        match peer_added(v, e, nonce, now).1[m] {
            ActionView::SendAnnounce { peer_id, ann } => peer_id == e.id && has_key(v.peers, e.key) && (
            get(v.sent, e.key) matches Some(keys) && exists|i: int|
                0 <= i < keys.len() && get(v.infos, (#[trigger] keys[i]).0) is Some && ann == wire_of(
                    announce_of(get(v.infos, keys[i].0)->0, keys[i].0),
                )),
            ActionView::SendSigReq { peer_id, .. } => peer_id == e.id,
            ActionView::SendBloom { peer_id, .. } => peer_id == e.id,
            _ => false,
        },
        peer_added(v, e, nonce, now).1[m] is SendSigReq ==> forall|n: int|
            0 <= n < peer_added(v, e, nonce, now).1.len() && n != m ==> !(
            #[trigger] peer_added(v, e, nonce, now).1[n] is SendSigReq),
{
    let sent = peer_added(v, e, nonce, now).1;
    let first = match get(v.sent, e.key) {
        Some(keys) => if has_key(v.peers, e.key) {
            resent(v.infos, e.id, keys)
        } else {
            Seq::empty()
        },
        None => Seq::empty(),
    };
    assert forall|n: int| 0 <= n < first.len() implies (#[trigger] sent[n] is SendAnnounce) && sent[n]
        == first[n] by {
        lemma_resent_only(v.infos, e.id, get(v.sent, e.key)->0, n);
    }
    if m < first.len() {
        lemma_resent_only(v.infos, e.id, get(v.sent, e.key)->0, m);
    }
}

} // verus!
