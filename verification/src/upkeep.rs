//! Periodic maintenance of the router: parent selection, announcements, filters, expiry.
use vstd::prelude::*;
use crate::bloom::key_bits;
use crate::blooms::{maintained, sent_view, KeyTransform};
use crate::bytes::{key_eq, key_less, lemma_array_view_eq, lex_less, PublicKey};
use crate::crypto::ed25519_signature;
use crate::discovery::Outcome;
use crate::neighbours::next_req;
use crate::pathfinder::cleaned;
use crate::random::{random_u64, random_u64s};
use crate::router::{
    actions_view, cached_for_dest, group_view, keys_view, lemma_actions_concat, lemma_actions_push,
    lemma_unsent_wf, own_seq, router_wf, seqs_in_step, unsent, updated,
    ActionView, PeerEntry, PeerId, PeersView, Router, RouterAction, RouterView, SentView,
    SigReqState, SigResState,
};
use crate::routing::{cost_of, product, saturating_product};
use crate::table::{
    del, distinct, find, get, has_key, lemma_del, lemma_entry, lemma_find, lemma_mapped_find,
    lemma_mapped_put, lemma_put, put, KeyTable,
};
use crate::traffic::elapsed;
use crate::tree::{
    accepts, ancestry, announce_of, announce_valid, dists_of, get_ancestry, info_of, lemma_lineage,
    lineage, sig_res_bytes_for_sig, signed_position, top_of, wire_of, Infos, RouterAnnounce,
};
use crate::wire::{array_of, lemma_array_holds, lemma_array_of, Announce, SigReq};

verus! {

// ---------------------------------------------------------------------------
// Parent selection
// ---------------------------------------------------------------------------

/// Our parent in the tree; ourselves if we have none.
pub open spec fn own_parent<T>(v: RouterView<T>) -> PublicKey {
    match get(v.infos, v.key) {
        Some(i) => i.parent,
        None => v.key,
    }
}

/// The last node on the climb from a node; the zero key if the node is not known.
pub open spec fn top_key(infos: Infos, key: PublicKey) -> PublicKey {
    array_of::<32>(top_of(infos, key))
}

/// How many steps it is from a node to the last one on the climb; endless if the node is not
/// known.
pub open spec fn top_dist(infos: Infos, key: PublicKey) -> u64 {
    let n = lineage(infos, key).len();
    if n == 0 {
        u64::MAX
    } else {
        (n - 1) as u64
    }
}

/// The least of distance `d` times cost over the connections of a group.
pub open spec fn group_cost<T>(
    v: RouterView<T>,
    group: Seq<(PeerId, PeerEntry)>,
    d: u64,
) -> u64
    decreases group.len(),
{
    if group.len() == 0 {
        u64::MAX
    } else {
        let rest = group_cost(v, group.drop_last(), d);
        let c = product(d, cost_of(v, group.last().1.id));
        if c < rest {
            c
        } else {
            rest
        }
    }
}

/// The least of distance `d` times cost over the connections to a peer.
pub open spec fn peer_cost<T>(v: RouterView<T>, key: PublicKey, d: u64) -> u64 {
    match get(v.peers, key) {
        Some(group) => group_cost(v, group, d),
        None => u64::MAX,
    }
}

/// A root, the parent towards it, and what the way there costs.
#[derive(Clone, Copy, Debug)]
pub struct Choice {
    pub root: PublicKey,
    pub parent: PublicKey,
    pub cost: u64,
}

/// What stands before any response is looked at: the present parent if it leads to a better
/// root than ourselves, or ourselves.
pub open spec fn first_choice<T>(v: RouterView<T>) -> Choice {
    let parent = own_parent(v);
    let root = top_key(v.infos, v.key);
    if has_key(v.peers, parent) && lex_less(root@, v.key@) {
        Choice { root, parent, cost: peer_cost(v, parent, top_dist(v.infos, v.key)) }
    } else {
        Choice { root: v.key, parent: v.key, cost: u64::MAX }
    }
}

/// The choice after the peer `pk` was looked at, who signed our place below it. A peer whose
/// climb leads through us is out. A better root wins. With the same root the peer wins if it
/// is cheaper and we leave the present parent anyway, or, on a refresh, if it costs less than
/// half.
pub open spec fn considered<T>(v: RouterView<T>, ch: Choice, pk: PublicKey) -> Choice {
    let root = top_key(v.infos, pk);
    let n = Choice { root, parent: pk, cost: peer_cost(v, pk, top_dist(v.infos, pk)) };
    if !has_key(v.infos, pk) || lineage(v.infos, pk).contains(v.key) {
        ch
    } else if lex_less(root@, ch.root@) {
        n
    } else if root != ch.root {
        ch
    } else if (v.refresh && n.cost * 2 < ch.cost) || (ch.parent != own_parent(v) && n.cost
        < ch.cost) {
        n
    } else {
        ch
    }
}

/// The choice after the first `n` responses were looked at.
pub open spec fn chosen_upto<T>(v: RouterView<T>, n: nat) -> Choice
    decreases n,
{
    if n == 0 {
        first_choice(v)
    } else {
        considered(v, chosen_upto(v, (n - 1) as nat), v.responses[n - 1].0)
    }
}

/// The root and parent that are chosen.
pub open spec fn chosen<T>(v: RouterView<T>) -> Choice {
    chosen_upto(v, v.responses.len())
}

/// The announcement that makes us a root: signed by ourselves as node and as parent.
pub open spec fn root_announce<T>(v: RouterView<T>, nonce: u64) -> RouterAnnounce {
    let req = next_req(v, nonce);
    let sig = array_of::<64>(
        ed25519_signature(v.secret, signed_position(v.key, v.key, req.seq, req.nonce, 0)),
    );
    RouterAnnounce {
        key: v.key,
        parent: v.key,
        seq: req.seq,
        nonce: req.nonce,
        port: 0,
        psig: sig,
        sig,
    }
}

/// The announcement that puts us below `parent`, who signed our place there.
pub open spec fn child_announce<T>(
    v: RouterView<T>,
    parent: PublicKey,
    res: SigResState,
) -> RouterAnnounce {
    RouterAnnounce {
        key: v.key,
        parent,
        seq: res.seq,
        nonce: res.nonce,
        port: res.port,
        psig: res.psig,
        sig: array_of::<64>(
            ed25519_signature(
                v.secret,
                signed_position(v.key, parent, res.seq, res.nonce, res.port),
            ),
        ),
    }
}

/// A signature request sent on the first `n` connections of a group.
pub open spec fn asked_group<T>(
    v: RouterView<T>,
    group: Seq<(PeerId, PeerEntry)>,
    req: SigReqState,
    now: u64,
    n: nat,
) -> Outcome<T>
    decreases n,
{
    if n == 0 {
        (v, Seq::empty())
    } else {
        let (u, sent) = asked_group(v, group, req, now, (n - 1) as nat);
        let peer_id = group[n - 1].0;
        (
            RouterView {
                responded: del(u.responded, peer_id),
                sig_req_times: put(u.sig_req_times, peer_id, now),
                ..u
            },
            sent.push(
                ActionView::SendSigReq {
                    peer_id,
                    req: SigReq { seq: req.seq, nonce: req.nonce },
                },
            ),
        )
    }
}

/// New signature requests sent to the first `n` peers, with one random number for each.
pub open spec fn asked_upto<T>(v: RouterView<T>, nonces: Seq<u64>, now: u64, n: nat) -> Outcome<T>
    decreases n,
{
    if n == 0 {
        (v, Seq::empty())
    } else {
        let (u, sent) = asked_upto(v, nonces, now, (n - 1) as nat);
        let (pk, group) = v.peers[n - 1];
        let req = next_req(v, nonces[n - 1]);
        let w = RouterView { requests: put(u.requests, pk, req), ..u };
        let (end, more) = asked_group(w, group, req, now, group.len());
        (end, sent + more)
    }
}

/// New signature requests sent to all peers; all earlier requests and responses are forgotten.
pub open spec fn asked<T>(v: RouterView<T>, nonces: Seq<u64>, now: u64) -> Outcome<T> {
    let cleared = RouterView {
        requests: Seq::empty(),
        responses: Seq::empty(),
        res_seqs: Seq::empty(),
        res_seq_ctr: 0,
        ..v
    };
    asked_upto(cleared, nonces, now, v.peers.len())
}

/// The router after our place changed, with nothing left to fix.
pub open spec fn settled<T>(v: RouterView<T>, a: RouterAnnounce, now: u64) -> RouterView<T> {
    RouterView { refresh: false, do_root1: false, do_root2: false, ..updated(v, a, now) }
}

/// Parent selection. If the choice is another parent, or if our place is to be announced anew,
/// the chosen parent's signature is used. Where that cannot be, we become a root the second
/// time in a row.
pub open spec fn fixed<T>(v: RouterView<T>, root_nonce: u64, nonces: Seq<u64>, now: u64) -> Outcome<
    T,
> {
    let ch = chosen(v);
    if !(v.refresh || v.do_root1 || v.do_root2 || own_parent(v) != ch.parent) {
        (v, Seq::empty())
    } else {
        match get(v.responses, ch.parent) {
            Some(res) if ch.root != v.key && accepts(
                v.infos,
                child_announce(v, ch.parent, res),
            ) => asked(settled(v, child_announce(v, ch.parent, res), now), nonces, now),
            _ => if v.do_root2 {
                asked(settled(v, root_announce(v, root_nonce), now), nonces, now)
            } else {
                (RouterView { do_root1: true, ..v }, Seq::empty())
            },
        }
    }
}

proof fn lemma_top_dist(infos: Infos, key: PublicKey, root: PublicKey)
    requires
        root@ == top_of(infos, key),
    ensures
        lineage(infos, key).len() > 0 ==> get(dists_of(infos, key), root) == Some(
            top_dist(infos, key),
        ),
        lineage(infos, key).len() == 0 ==> get(dists_of(infos, key), root) is None,
        forall|k: PublicKey|
            has_key(dists_of(infos, key), k) == #[trigger] lineage(infos, key).contains(k),
        root == top_key(infos, key),
{
    lemma_lineage(infos, key);
    lemma_array_of(root);
    let l = lineage(infos, key);
    let d = dists_of(infos, key);
    assert(distinct(d)) by {
        assert forall|i: int, j: int| 0 <= i < j < d.len() implies d[i].0 != d[j].0 by {
            assert(l[i] != l[j]);
        }
    }
    if l.len() > 0 {
        lemma_array_view_eq(root, l.last());
        lemma_entry(d, l.len() - 1);
    } else {
        lemma_find(d, root);
    }
    assert forall|k: PublicKey| has_key(d, k) == #[trigger] l.contains(k) by {
        lemma_find(d, k);
        if has_key(d, k) {
            assert(l[find(d, k)] == k);
        }
        if l.contains(k) {
            let i = choose|i: int| 0 <= i < l.len() && l[i] == k;
            assert(d[i].0 == k);
            lemma_entry(d, i);
        }
    }
}

proof fn lemma_asked_group_wf<T>(
    v: RouterView<T>,
    group: Seq<(PeerId, PeerEntry)>,
    req: SigReqState,
    now: u64,
    n: nat,
)
    requires
        router_wf(v),
        n <= group.len(),
    ensures
        ({
            let u = asked_group(v, group, req, now, n).0;
            &&& router_wf(u)
            &&& u == RouterView {
                responded: u.responded,
                sig_req_times: u.sig_req_times,
                ..v
            }
        }),
    decreases n,
{
    if n > 0 {
        lemma_asked_group_wf(v, group, req, now, (n - 1) as nat);
        let u = asked_group(v, group, req, now, (n - 1) as nat).0;
        lemma_del(u.responded, group[n - 1].0);
        lemma_put(u.sig_req_times, group[n - 1].0, now);
    }
}

proof fn lemma_request_put_wf<T>(v: RouterView<T>, pk: PublicKey, nonce: u64)
    requires
        router_wf(v),
        own_seq(v) < u64::MAX,
    ensures
        router_wf(RouterView { requests: put(v.requests, pk, next_req(v, nonce)), ..v }),
{
    let req = next_req(v, nonce);
    lemma_put(v.requests, pk, req);
    let w = RouterView { requests: put(v.requests, pk, req), ..v };
    assert(own_seq(w) == own_seq(v));
    assert forall|k: PublicKey| (#[trigger] get(w.requests, k)) is Some implies get(
        w.requests,
        k,
    )->0.seq <= own_seq(w) + 1 by {
        assert(get(v.requests, k) is Some ==> get(v.requests, k)->0.seq <= own_seq(v) + 1);
    }
}

proof fn lemma_asked_upto_wf<T>(v: RouterView<T>, nonces: Seq<u64>, now: u64, n: nat)
    requires
        router_wf(v),
        own_seq(v) < u64::MAX,
        n <= v.peers.len(),
    ensures
        ({
            let u = asked_upto(v, nonces, now, n).0;
            &&& router_wf(u)
            &&& u == RouterView {
                requests: u.requests,
                responded: u.responded,
                sig_req_times: u.sig_req_times,
                ..v
            }
        }),
    decreases n,
{
    if n > 0 {
        lemma_asked_upto_wf(v, nonces, now, (n - 1) as nat);
        let u = asked_upto(v, nonces, now, (n - 1) as nat).0;
        let (pk, group) = v.peers[n - 1];
        assert(own_seq(u) == own_seq(v));
        lemma_request_put_wf(u, pk, nonces[n - 1]);
        let req = next_req(v, nonces[n - 1]);
        assert(next_req(u, nonces[n - 1]) == req);
        let w = RouterView { requests: put(u.requests, pk, req), ..u };
        lemma_asked_group_wf(w, group, req, now, group.len());
    }
}

proof fn lemma_cleared_wf<T>(v: RouterView<T>)
    requires
        router_wf(v),
    ensures
        router_wf(
            RouterView {
                requests: Seq::empty(),
                responses: Seq::empty(),
                res_seqs: Seq::empty(),
                res_seq_ctr: 0,
                ..v
            },
        ),
{
    let w = RouterView {
        requests: Seq::<(PublicKey, SigReqState)>::empty(),
        responses: Seq::<(PublicKey, SigResState)>::empty(),
        res_seqs: Seq::<(PublicKey, u64)>::empty(),
        res_seq_ctr: 0,
        ..v
    };
    assert forall|k: PublicKey| (#[trigger] get(w.requests, k)) is None by {
        lemma_find(w.requests, k);
    }
    assert forall|k: PublicKey| (#[trigger] get(w.responses, k)) is None by {
        lemma_find(w.responses, k);
    }
}

impl<T: KeyTransform> Router<T> {
    fn group_min_cost(&self, group: &KeyTable<PeerId, PeerEntry>, d: u64) -> (r: u64)
        ensures
            r == group_cost(self@, group@, d),
    {
        let mut cost: u64 = u64::MAX;
        let mut i: usize = 0;
        assert(group@.take(0) =~= Seq::empty());
        while i < group.len()
            invariant
                i <= group@.len(),
                cost == group_cost(self@, group@.take(i as int), d),
            decreases group@.len() - i,
        {
            assert(group@.take(i + 1).drop_last() =~= group@.take(i as int));
            let c: u64 = saturating_product(d, self.get_cost(group.value_at(i).id));
            if c < cost {
                cost = c;
            }
            i += 1;
        }
        assert(group@.take(i as int) =~= group@);
        cost
    }

    fn peer_min_cost(&self, key: &PublicKey, d: u64) -> (r: u64)
        ensures
            r == peer_cost(self@, *key, d),
    {
        proof {
            lemma_mapped_find(self.peers@, group_view(), *key);
        }
        match self.peers.get(key) {
            Some(group) => self.group_min_cost(group, d),
            None => u64::MAX,
        }
    }

    fn parent(&self) -> (r: PublicKey)
        ensures
            r == own_parent(self@),
    {
        match self.infos.get(&self.crypto.public_key) {
            Some(i) => i.parent,
            None => self.crypto.public_key,
        }
    }

    /// The last node on the climb from `key`, the distance to it, and whether the climb leads
    /// through us.
    fn climb_from(&self, key: &PublicKey) -> (r: (PublicKey, u64, bool))
        ensures
            r.0 == top_key(self@.infos, *key),
            r.1 == top_dist(self@.infos, *key),
            r.2 == lineage(self@.infos, *key).contains(self@.key),
    {
        let (root, dists) = self.get_root_and_dists(key);
        proof {
            lemma_top_dist(self@.infos, *key, root);
        }
        let d: u64 = match dists.get(&root) {
            Some(d) => *d,
            None => u64::MAX,
        };
        let through: bool = dists.contains_key(&self.crypto.public_key);
        assert(through == lineage(self@.infos, *key).contains(self@.key));
        (root, d, through)
    }

    /// Looks at the present parent.
    fn choose_first(&self) -> (r: Choice)
        ensures
            r == first_choice(self@),
    {
        let self_key = self.crypto.public_key;
        let parent = self.parent();
        proof {
            lemma_mapped_find(self.peers@, group_view(), parent);
        }
        if self.peers.contains_key(&parent) {
            let (root, d, _) = self.climb_from(&self_key);
            if key_less(&root, &self_key) {
                return Choice { root, parent, cost: self.peer_min_cost(&parent, d) };
            }
        }
        Choice { root: self_key, parent: self_key, cost: u64::MAX }
    }

    /// Looks at a peer who signed our place below it.
    fn consider(&self, ch: Choice, pk: &PublicKey) -> (r: Choice)
        ensures
            r == considered(self@, ch, *pk),
    {
        if !self.infos.contains_key(pk) {
            return ch;
        }
        let (root, d, through) = self.climb_from(pk);
        if through {
            return ch;
        }
        let cost: u64 = self.peer_min_cost(pk, d);
        if key_less(&root, &ch.root) {
            return Choice { root, parent: *pk, cost };
        }
        if !key_eq(&root, &ch.root) {
            return ch;
        }
        let half: bool = cost.saturating_add(cost) < ch.cost;
        if (self.refresh && half) || (!key_eq(&ch.parent, &self.parent()) && cost < ch.cost) {
            Choice { root, parent: *pk, cost }
        } else {
            ch
        }
    }

    /// Chooses the best root and parent.
    fn choose_parent(&self) -> (r: Choice)
        ensures
            r == chosen(self@),
    {
        let mut ch = self.choose_first();
        let mut i: usize = 0;
        while i < self.responses.len()
            invariant
                i <= self.responses@.len(),
                ch == chosen_upto(self@, i as nat),
            decreases self.responses@.len() - i,
        {
            let pk = self.responses.key_at(i);
            ch = self.consider(ch, &pk);
            i += 1;
        }
        ch
    }

    /// Becomes root: creates a self-signed announcement, with the random number `nonce`.
    pub fn become_root_with(&mut self, nonce: u64, now: u64) -> (r: bool)
        requires
            old(self).wf(),
            own_seq(old(self)@) < u64::MAX,
        ensures
            final(self).wf(),
            r == accepts(old(self)@.infos, root_announce(old(self)@, nonce)),
            final(self)@ == updated(old(self)@, root_announce(old(self)@, nonce), now),
            announce_valid(root_announce(old(self)@, nonce)),
    {
        let req = self.new_req_with(nonce);
        let self_key = self.crypto.public_key;
        let res_bytes = sig_res_bytes_for_sig(&self_key, &self_key, req.seq, req.nonce, 0);
        let psig = self.crypto.sign(&res_bytes);
        proof {
            lemma_array_of(psig);
        }
        let ann = RouterAnnounce {
            key: self_key,
            parent: self_key,
            seq: req.seq,
            nonce: req.nonce,
            port: 0,
            psig,
            sig: psig,
        };
        self.update(&ann, now)
    }

    /// Becomes root: creates a self-signed announcement.
    pub fn become_root(&mut self, now: u64) -> (r: bool)
        requires
            old(self).wf(),
            own_seq(old(self)@) < u64::MAX,
        ensures
            final(self).wf(),
            exists|nonce: u64|
                r == accepts(old(self)@.infos, root_announce(old(self)@, nonce))
                    && announce_valid(root_announce(old(self)@, nonce))
                    && final(self)@ == updated(
                    old(self)@,
                    #[trigger] root_announce(old(self)@, nonce),
                    now,
                ),
    {
        let nonce: u64 = random_u64();
        self.become_root_with(nonce, now)
    }

    /// Uses a signature response to set a new parent.
    fn use_response(&mut self, peer_key: &PublicKey, res: &SigResState, now: u64) -> (r: bool)
        requires
            old(self).wf(),
        ensures
            final(self).wf(),
            r == accepts(old(self)@.infos, child_announce(old(self)@, *peer_key, *res)),
            final(self)@ == updated(
                old(self)@,
                child_announce(old(self)@, *peer_key, *res),
                now,
            ),
    {
        let self_key = self.crypto.public_key;
        let bs = sig_res_bytes_for_sig(&self_key, peer_key, res.seq, res.nonce, res.port);
        let sig = self.crypto.sign(&bs);
        proof {
            lemma_array_of(sig);
        }
        let ann = RouterAnnounce {
            key: self_key,
            parent: *peer_key,
            seq: res.seq,
            nonce: res.nonce,
            port: res.port,
            psig: res.psig,
            sig,
        };
        self.update(&ann, now)
    }

    fn clear_reqs(&mut self)
        requires
            old(self).wf(),
        ensures
            final(self).wf(),
            final(self)@ == (RouterView {
                requests: Seq::empty(),
                responses: Seq::empty(),
                res_seqs: Seq::empty(),
                res_seq_ctr: 0,
                ..old(self)@
            }),
            final(self).peers == old(self).peers,
    {
        proof {
            lemma_cleared_wf(self@);
        }
        self.requests.clear();
        self.responses.clear();
        self.res_seqs.clear();
        self.res_seq_ctr = 0;
        assert(self@.requests =~= Seq::empty());
        assert(self@.responses =~= Seq::empty());
        assert(self@.res_seqs =~= Seq::empty());
    }

    fn group_ids(&self, at: usize) -> (r: Vec<PeerId>)
        requires
            at < self.peers@.len(),
        ensures
            r@.len() == self@.peers[at as int].1.len(),
            forall|i: int| 0 <= i < r@.len() ==> r@[i] == self@.peers[at as int].1[i].0,
    {
        let group = self.peers.value_at(at);
        let mut r: Vec<PeerId> = Vec::new();
        while r.len() < group.len()
            invariant
                r@.len() <= group@.len(),
                forall|i: int| 0 <= i < r@.len() ==> r@[i] == group@[i].0,
            decreases group@.len() - r@.len(),
        {
            r.push(group.key_at(r.len()));
        }
        r
    }

    /// Sends new signature requests to all peers, with one random number for each.
    fn send_reqs_with(&mut self, nonces: &[u64], now: u64) -> (actions: Vec<RouterAction>)
        requires
            old(self).wf(),
            own_seq(old(self)@) < u64::MAX,
            nonces@.len() == old(self)@.peers.len(),
        ensures
            final(self).wf(),
            (final(self)@, actions_view(actions@)) == asked(old(self)@, nonces@, now),
    {
        self.clear_reqs();
        let ghost v = self@;
        let mut actions: Vec<RouterAction> = Vec::new();
        assert(actions_view(actions@) =~= Seq::empty());
        let mut i: usize = 0;
        let n: usize = self.peers.len();
        while i < n
            invariant
                i <= n,
                n == v.peers.len(),
                nonces@.len() == n,
                router_wf(v),
                own_seq(v) < u64::MAX,
                self.wf(),
                (self@, actions_view(actions@)) == asked_upto(v, nonces@, now, i as nat),
            decreases n - i,
        {
            let ghost u = self@;
            let ghost before = actions_view(actions@);
            proof {
                lemma_asked_upto_wf(v, nonces@, now, i as nat);
                assert(own_seq(u) == own_seq(v));
            }
            assert(u.peers == v.peers);
            assert(self.peers@.len() == u.peers.len());
            let pk = self.peers.key_at(i);
            assert(pk == u.peers[i as int].0);
            let ids = self.group_ids(i);
            let req = self.new_req_with(nonces[i]);
            let ghost group = v.peers[i as int].1;
            assert(req == next_req(v, nonces@[i as int]));
            proof {
                lemma_request_put_wf(u, pk, nonces@[i as int]);
            }
            self.requests.insert(pk, req);
            let ghost w = self@;
            let mut j: usize = 0;
            assert(before + Seq::<ActionView>::empty() =~= before);
            while j < ids.len()
                invariant
                    j <= ids@.len(),
                    ids@.len() == group.len(),
                    forall|k: int| 0 <= k < ids@.len() ==> ids@[k] == group[k].0,
                    router_wf(w),
                    self.wf(),
                    self@ == asked_group(w, group, req, now, j as nat).0,
                    actions_view(actions@) == before + asked_group(w, group, req, now, j as nat).1,
                decreases ids@.len() - j,
            {
                let peer_id: PeerId = ids[j];
                proof {
                    lemma_asked_group_wf(w, group, req, now, (j + 1) as nat);
                }
                let _ = self.responded.remove(&peer_id);
                self.sig_req_times.insert(peer_id, now);
                let a = RouterAction::SendSigReq {
                    peer_id,
                    req: SigReq { seq: req.seq, nonce: req.nonce },
                };
                proof {
                    lemma_actions_push(actions@, a);
                    let sent = asked_group(w, group, req, now, j as nat).1;
                    assert((before + sent).push(a@) =~= before + sent.push(a@));
                }
                actions.push(a);
                j += 1;
            }
            i += 1;
        }
        actions
    }

    /// Parent selection: chooses the best root and parent, and adopts them if they changed or
    /// if our place is to be announced anew. Takes the random numbers for a new root
    /// announcement and for the signature requests.
    pub fn fix_with(&mut self, root_nonce: u64, nonces: &[u64], now: u64) -> (actions: Vec<
        RouterAction,
    >)
        requires
            old(self).wf(),
            own_seq(old(self)@) < u64::MAX - 1,
            nonces@.len() == old(self)@.peers.len(),
        ensures
            final(self).wf(),
            (final(self)@, actions_view(actions@)) == fixed(old(self)@, root_nonce, nonces@, now),
    {
        let ghost v = self@;
        let none: Vec<RouterAction> = Vec::new();
        assert(actions_view(none@) =~= Seq::empty());
        let ch = self.choose_parent();
        let self_key = self.crypto.public_key;
        if !(self.refresh || self.do_root1 || self.do_root2 || !key_eq(
            &self.parent(),
            &ch.parent,
        )) {
            return none;
        }
        let res: Option<SigResState> = match self.responses.get(&ch.parent) {
            Some(r) => Some(*r),
            None => None,
        };
        match res {
            Some(res) => {
                if !key_eq(&ch.root, &self_key) && self.use_response(&ch.parent, &res, now) {
                    self.refresh = false;
                    self.do_root1 = false;
                    self.do_root2 = false;
                    proof {
                        let a = child_announce(v, ch.parent, res);
                        lemma_put(v.infos, a.key, info_of(a));
                        assert(get(self@.infos, v.key) == Some(info_of(a)));
                        assert(get(v.responses, ch.parent) == Some(res));
                        assert(res.seq <= own_seq(v) + 1);
                    }
                    return self.send_reqs_with(nonces, now);
                }
            },
            None => {},
        }
        assert(self@ == v);
        if self.do_root2 {
            let _ = self.become_root_with(root_nonce, now);
            self.refresh = false;
            self.do_root1 = false;
            self.do_root2 = false;
            proof {
                let a = root_announce(v, root_nonce);
                lemma_put(v.infos, a.key, info_of(a));
                assert(own_seq(self@) <= own_seq(v) + 1);
            }
            self.send_reqs_with(nonces, now)
        } else {
            self.do_root1 = true;
            none
        }
    }
}

// ---------------------------------------------------------------------------
// Announcements
// ---------------------------------------------------------------------------

/// Of the nodes `keys`, those that the set does not hold, each once; and the set with them.
pub open spec fn fresh_keys(set: Seq<(PublicKey, ())>, keys: Seq<PublicKey>) -> (
    Seq<(PublicKey, ())>,
    Seq<PublicKey>,
)
    decreases keys.len(),
{
    if keys.len() == 0 {
        (set, Seq::empty())
    } else {
        let (s, list) = fresh_keys(set, keys.drop_last());
        let k = keys.last();
        if has_key(s, k) {
            (s, list)
        } else {
            (put(s, k, ()), list.push(k))
        }
    }
}

/// The wire form of the announcements of the nodes `keys` that are known.
pub open spec fn announcements(infos: Infos, keys: Seq<PublicKey>) -> Seq<Announce>
    decreases keys.len(),
{
    if keys.len() == 0 {
        Seq::empty()
    } else {
        let rest = announcements(infos, keys.drop_last());
        let k = keys.last();
        match get(infos, k) {
            Some(i) => rest.push(wire_of(announce_of(i, k))),
            None => rest,
        }
    }
}

/// Announcements sent on one connection.
pub open spec fn announced_on(peer_id: PeerId, anns: Seq<Announce>) -> Seq<ActionView> {
    Seq::new(anns.len(), |i: int| ActionView::SendAnnounce { peer_id, ann: anns[i] })
}

/// Announcements sent on every connection of a group.
pub open spec fn announced_to(group: Seq<(PeerId, PeerEntry)>, anns: Seq<Announce>) -> Seq<
    ActionView,
>
    decreases group.len(),
{
    if group.len() == 0 {
        Seq::empty()
    } else {
        announced_to(group.drop_last(), anns) + announced_on(group.last().1.id, anns)
    }
}

/// The nodes whose announcements a peer is to have: our ancestors and ours, then its own.
pub open spec fn wanted<T>(v: RouterView<T>, peer: PublicKey) -> Seq<PublicKey> {
    ancestry(v.infos, v.key) + ancestry(v.infos, peer)
}

/// What a peer is sent of the announcements that it is to have and was not sent yet.
pub open spec fn announced_peer<T>(v: RouterView<T>, i: int) -> Seq<ActionView> {
    let (peer, set) = v.sent[i];
    let anns = announcements(v.infos, fresh_keys(set, wanted(v, peer)).1);
    match get(v.peers, peer) {
        Some(group) => announced_to(group, anns),
        None => Seq::empty(),
    }
}

/// The sets of sent announcements after every peer was sent what it is to have.
pub open spec fn all_sent<T>(v: RouterView<T>) -> SentView {
    Seq::new(
        v.sent.len(),
        |i: int| (v.sent[i].0, fresh_keys(v.sent[i].1, wanted(v, v.sent[i].0)).0),
    )
}

/// What the first `n` peers are sent.
pub open spec fn announced_upto<T>(v: RouterView<T>, n: nat) -> Seq<ActionView>
    decreases n,
{
    if n == 0 {
        Seq::empty()
    } else {
        announced_upto(v, (n - 1) as nat) + announced_peer(v, n - 1)
    }
}

/// Every peer is sent the announcements that it is to have and was not sent yet.
pub open spec fn announced_all<T>(v: RouterView<T>) -> Outcome<T> {
    (RouterView { sent: all_sent(v), ..v }, announced_upto(v, v.sent.len()))
}

proof fn lemma_fresh_keys_distinct(set: Seq<(PublicKey, ())>, keys: Seq<PublicKey>)
    requires
        distinct(set),
    ensures
        distinct(fresh_keys(set, keys).0),
    decreases keys.len(),
{
    if keys.len() > 0 {
        lemma_fresh_keys_distinct(set, keys.drop_last());
        lemma_put(fresh_keys(set, keys.drop_last()).0, keys.last(), ());
    }
}

proof fn lemma_all_sent_wf<T>(v: RouterView<T>)
    requires
        router_wf(v),
    ensures
        router_wf(RouterView { sent: all_sent(v), ..v }),
{
    let s = all_sent(v);
    assert forall|i: int| 0 <= i < s.len() implies distinct((#[trigger] s[i]).1) by {
        assert(distinct(v.sent[i].1));
        lemma_fresh_keys_distinct(v.sent[i].1, wanted(v, v.sent[i].0));
    }
    assert forall|i: int, j: int| 0 <= i < j < s.len() implies s[i].0 != s[j].0 by {
        assert(v.sent[i].0 != v.sent[j].0);
    }
    let w = RouterView { sent: s, ..v };
    assert(own_seq(w) == own_seq(v));
    assert(seqs_in_step(w));
}

/// Adds the nodes `keys` that the set does not hold to it and to `list`.
fn note_keys(set: &mut KeyTable<PublicKey, ()>, keys: &Vec<PublicKey>, list: &mut Vec<PublicKey>)
    ensures
        final(set)@ == fresh_keys(old(set)@, keys@).0,
        final(list)@ == old(list)@ + fresh_keys(old(set)@, keys@).1,
{
    let mut i: usize = 0;
    assert(keys@.take(0) =~= Seq::empty());
    assert(list@ =~= old(list)@ + Seq::<PublicKey>::empty());
    while i < keys.len()
        invariant
            i <= keys@.len(),
            set@ == fresh_keys(old(set)@, keys@.take(i as int)).0,
            list@ == old(list)@ + fresh_keys(old(set)@, keys@.take(i as int)).1,
        decreases keys@.len() - i,
    {
        assert(keys@.take(i + 1).drop_last() =~= keys@.take(i as int));
        let k = keys[i];
        if !set.contains_key(&k) {
            set.insert(k, ());
            let ghost l = fresh_keys(old(set)@, keys@.take(i as int)).1;
            assert((old(list)@ + l).push(k) =~= old(list)@ + l.push(k));
            list.push(k);
        }
        i += 1;
    }
    assert(keys@.take(i as int) =~= keys@);
}

proof fn lemma_fresh_keys_concat(
    set: Seq<(PublicKey, ())>,
    a: Seq<PublicKey>,
    b: Seq<PublicKey>,
)
    ensures
        ({
            let (s, l) = fresh_keys(set, a);
            let (s2, l2) = fresh_keys(s, b);
            fresh_keys(set, a + b) == (s2, l + l2)
        }),
    decreases b.len(),
{
    let (s, l) = fresh_keys(set, a);
    if b.len() == 0 {
        assert(a + b =~= a);
        assert(l + Seq::<PublicKey>::empty() =~= l);
    } else {
        lemma_fresh_keys_concat(set, a, b.drop_last());
        assert((a + b).drop_last() =~= a + b.drop_last());
        let l2 = fresh_keys(s, b.drop_last()).1;
        assert((l + l2).push(b.last()) =~= l + l2.push(b.last()));
    }
}

impl<T: KeyTransform> Router<T> {
    fn announcements_of(&self, keys: &Vec<PublicKey>) -> (r: Vec<Announce>)
        ensures
            r@ == announcements(self@.infos, keys@),
    {
        let mut r: Vec<Announce> = Vec::new();
        let mut i: usize = 0;
        assert(keys@.take(0) =~= Seq::empty());
        while i < keys.len()
            invariant
                i <= keys@.len(),
                r@ == announcements(self@.infos, keys@.take(i as int)),
            decreases keys@.len() - i,
        {
            assert(keys@.take(i + 1).drop_last() =~= keys@.take(i as int));
            match self.infos.get(&keys[i]) {
                Some(info) => {
                    r.push(info.get_announce(keys[i]).to_wire());
                },
                None => {},
            }
            i += 1;
        }
        assert(keys@.take(i as int) =~= keys@);
        r
    }

    fn announce_to_peer(&self, peer: &PublicKey, anns: &Vec<Announce>) -> (actions: Vec<
        RouterAction,
    >)
        ensures
            actions_view(actions@) == (match get(self@.peers, *peer) {
                Some(group) => announced_to(group, anns@),
                None => Seq::empty(),
            }),
    {
        let mut actions: Vec<RouterAction> = Vec::new();
        assert(actions_view(actions@) =~= Seq::empty());
        proof {
            lemma_mapped_find(self.peers@, group_view(), *peer);
        }
        match self.peers.get(peer) {
            Some(group) => {
                let mut i: usize = 0;
                assert(group@.take(0) =~= Seq::empty());
                while i < group.len()
                    invariant
                        i <= group@.len(),
                        actions_view(actions@) == announced_to(group@.take(i as int), anns@),
                    decreases group@.len() - i,
                {
                    assert(group@.take(i + 1).drop_last() =~= group@.take(i as int));
                    let peer_id: PeerId = group.value_at(i).id;
                    let ghost before = actions_view(actions@);
                    let ghost more = announced_on(peer_id, anns@);
                    let mut j: usize = 0;
                    assert(before + more.take(0) =~= before);
                    while j < anns.len()
                        invariant
                            j <= anns@.len(),
                            more == announced_on(peer_id, anns@),
                            actions_view(actions@) == before + more.take(j as int),
                        decreases anns@.len() - j,
                    {
                        let a = RouterAction::SendAnnounce { peer_id, ann: anns[j] };
                        proof {
                            lemma_actions_push(actions@, a);
                            assert((before + more.take(j as int)).push(a@) =~= before + more.take(
                                j + 1,
                            ));
                        }
                        actions.push(a);
                        j += 1;
                    }
                    assert(more.take(j as int) =~= more);
                    i += 1;
                }
                assert(group@.take(i as int) =~= group@);
            },
            None => {},
        }
        actions
    }

    /// Sends every peer the announcements that it is to have and was not sent yet.
    pub fn send_announces(&mut self) -> (actions: Vec<RouterAction>)
        requires
            old(self).wf(),
        ensures
            final(self).wf(),
            (final(self)@, actions_view(actions@)) == announced_all(old(self)@),
    {
        let ghost v = self@;
        let ghost goal = all_sent(v);
        let mut actions: Vec<RouterAction> = Vec::new();
        assert(actions_view(actions@) =~= Seq::empty());
        let self_key = self.crypto.public_key;
        let self_anc = get_ancestry(&self.infos, &self_key);
        let mut i: usize = 0;
        let n: usize = self.sent.len();
        while i < n
            invariant
                i <= n,
                n == self.sent@.len(),
                n == v.sent.len(),
                v == old(self)@,
                goal == all_sent(v),
                self_key == v.key,
                self_anc@ == ancestry(v.infos, v.key),
                self@ == (RouterView { sent: self@.sent, ..v }),
                self.cache == old(self).cache,
                forall|j: int| 0 <= j < i ==> self@.sent[j] == goal[j],
                forall|j: int| i <= j < n ==> self@.sent[j] == v.sent[j],
                actions_view(actions@) == announced_upto(v, i as nat),
            decreases n - i,
        {
            let ghost before = self@.sent;
            let peer_key = self.sent.key_at(i);
            assert(before[i as int] == v.sent[i as int]);
            let peer_anc = get_ancestry(&self.infos, &peer_key);
            let mut to_send: Vec<PublicKey> = Vec::new();
            let set = self.sent.value_at_mut(i);
            let ghost start = set@;
            assert(start == v.sent[i as int].1);
            note_keys(set, &self_anc, &mut to_send);
            note_keys(set, &peer_anc, &mut to_send);
            proof {
                lemma_fresh_keys_concat(start, self_anc@, peer_anc@);
                assert(to_send@ =~= fresh_keys(start, wanted(v, peer_key)).1);
                assert(self@.sent[i as int] == goal[i as int]);
                assert forall|j: int| 0 <= j < n && j != i implies self@.sent[j] == before[j] by {}
            }
            let anns = self.announcements_of(&to_send);
            let mut more = self.announce_to_peer(&peer_key, &anns);
            proof {
                lemma_actions_concat(actions@, more@);
                assert(actions_view(more@) == announced_peer(v, i as int));
            }
            actions.append(&mut more);
            i += 1;
        }
        proof {
            assert(self@.sent =~= goal);
            lemma_all_sent_wf(v);
        }
        actions
    }
}

// ---------------------------------------------------------------------------
// Filters and ancestries
// ---------------------------------------------------------------------------

/// The parent of every node that is known.
pub open spec fn parents_of(infos: Infos) -> Seq<(PublicKey, PublicKey)> {
    Seq::new(infos.len(), |i: int| (infos[i].0, infos[i].1.parent))
}

/// Filters sent on all connections of the peers that they are for.
pub open spec fn blooms_sent(peers: PeersView, list: Seq<(PublicKey, Set<int>)>) -> Seq<ActionView>
    decreases list.len(),
{
    if list.len() == 0 {
        Seq::empty()
    } else {
        let rest = blooms_sent(peers, list.drop_last());
        let (k, bloom) = list.last();
        match get(peers, k) {
            Some(group) => rest + crate::neighbours::bloom_to_group(group, bloom),
            None => rest,
        }
    }
}

/// Maintenance of the filters.
pub open spec fn blooms_maintained<T: KeyTransform>(v: RouterView<T>) -> Outcome<T> {
    let (blooms, list) = maintained(
        v.blooms,
        v.key,
        own_parent(v),
        parents_of(v.infos),
        key_bits(v.transform.transformed(v.key)@),
    );
    (RouterView { blooms, ..v }, blooms_sent(v.peers, list))
}

/// The ancestries of the first `n` peers as they are now.
pub open spec fn ancestries_upto<T>(v: RouterView<T>, n: nat) -> Seq<(PublicKey, Seq<PublicKey>)>
    decreases n,
{
    if n == 0 {
        v.ancs
    } else {
        let k = v.peers[n - 1].0;
        put(ancestries_upto(v, (n - 1) as nat), k, ancestry(v.infos, k))
    }
}

impl<T: KeyTransform> Router<T> {
    fn parent_map(&self) -> (r: KeyTable<PublicKey, PublicKey>)
        requires
            self.wf(),
        ensures
            r@ == parents_of(self@.infos),
            r.wf(),
    {
        let mut r: KeyTable<PublicKey, PublicKey> = KeyTable::new();
        let mut i: usize = 0;
        let ghost goal = parents_of(self@.infos);
        while i < self.infos.len()
            invariant
                self.wf(),
                i <= self.infos@.len(),
                goal == parents_of(self@.infos),
                r.wf(),
                r@ == goal.take(i as int),
            decreases self.infos@.len() - i,
        {
            let k = self.infos.key_at(i);
            let p = self.infos.value_at(i).parent;
            proof {
                lemma_find(r@, k);
                if has_key(r@, k) {
                    let j = find(r@, k);
                    assert(r@[j].0 == self.infos@[j].0);
                    assert(self.infos@[j].0 != self.infos@[i as int].0);
                }
            }
            r.insert(k, p);
            assert(r@ =~= goal.take(i + 1));
            i += 1;
        }
        assert(goal.take(i as int) =~= goal);
        r
    }

    /// Maintains the filters and sends those that changed.
    pub fn blooms_maintenance(&mut self) -> (actions: Vec<RouterAction>)
        requires
            old(self).wf(),
        ensures
            final(self).wf(),
            (final(self)@, actions_view(actions@)) == blooms_maintained(old(self)@),
    {
        let ghost v = self@;
        let self_key = self.crypto.public_key;
        let self_parent = self.parent();
        let parents = self.parent_map();
        let to_send = self.blooms.do_maintenance(
            &self_key,
            &self_parent,
            &parents,
            &self.bloom_transform,
        );
        let ghost list = sent_view(to_send@);
        let mut actions: Vec<RouterAction> = Vec::new();
        assert(actions_view(actions@) =~= Seq::empty());
        let mut i: usize = 0;
        assert(list.take(0) =~= Seq::empty());
        while i < to_send.len()
            invariant
                i <= to_send@.len(),
                list == sent_view(to_send@),
                self@.peers == v.peers,
                actions_view(actions@) == blooms_sent(v.peers, list.take(i as int)),
            decreases to_send@.len() - i,
        {
            assert(list.take(i + 1).drop_last() =~= list.take(i as int));
            let peer_key = to_send[i].0;
            assert(list[i as int] == (peer_key, to_send@[i as int].1@));
            proof {
                lemma_mapped_find(self.peers@, group_view(), peer_key);
            }
            match self.peers.get(&peer_key) {
                Some(group) => {
                    let ghost before = actions_view(actions@);
                    let ghost more = crate::neighbours::bloom_to_group(group@, list[i as int].1);
                    let mut j: usize = 0;
                    assert(before + more.take(0) =~= before);
                    while j < group.len()
                        invariant
                            j <= group@.len(),
                            i < to_send@.len(),
                            list == sent_view(to_send@),
                            more == crate::neighbours::bloom_to_group(group@, list[i as int].1),
                            actions_view(actions@) == before + more.take(j as int),
                        decreases group@.len() - j,
                    {
                        let a = RouterAction::SendBloom {
                            peer_id: group.value_at(j).id,
                            bloom: to_send[i].1.clone(),
                        };
                        proof {
                            lemma_actions_push(actions@, a);
                            assert((before + more.take(j as int)).push(a@) =~= before + more.take(
                                j + 1,
                            ));
                        }
                        actions.push(a);
                        j += 1;
                    }
                    assert(more.take(j as int) =~= more);
                },
                None => {},
            }
            i += 1;
        }
        assert(list.take(i as int) =~= list);
        proof {
            let w = self@;
            assert(own_seq(w) == own_seq(v));
            assert(seqs_in_step(w));
        }
        actions
    }

    /// Brings the ancestries of the peers up to date.
    fn update_ancestries(&mut self)
        requires
            old(self).wf(),
        ensures
            final(self).wf(),
            final(self)@ == (RouterView {
                ancs: ancestries_upto(old(self)@, old(self)@.peers.len()),
                ..old(self)@
            }),
    {
        let ghost v = self@;
        let mut i: usize = 0;
        while i < self.peers.len()
            invariant
                i <= self.peers@.len(),
                v == old(self)@,
                self.wf(),
                self@ == (RouterView { ancs: self@.ancs, ..v }),
                self@.ancs == ancestries_upto(v, i as nat),
            decreases self.peers@.len() - i,
        {
            let k = self.peers.key_at(i);
            assert(v.peers[i as int].0 == k);
            let anc = get_ancestry(&self.infos, &k);
            proof {
                lemma_put(self@.ancs, k, anc@);
                lemma_mapped_put(self.ancs@, keys_view(), k, anc);
            }
            let ghost before = self@;
            self.ancs.insert(k, anc);
            proof {
                assert(own_seq(self@) == own_seq(before));
                assert(seqs_in_step(self@));
            }
            i += 1;
        }
    }
}

// ---------------------------------------------------------------------------
// The maintenance round
// ---------------------------------------------------------------------------

/// What a maintenance round starts from: the refresh timer may have fired, a root change that
/// was put off once is due, and ancestries are up to date.
pub open spec fn round_start<T>(v: RouterView<T>, now: u64) -> RouterView<T> {
    let due = elapsed(v.last_refresh, now) >= v.config.router_refresh;
    let u = RouterView {
        refresh: v.refresh || due,
        last_refresh: if due {
            now
        } else {
            v.last_refresh
        },
        do_root2: v.do_root2 || v.do_root1,
        ..v
    };
    RouterView { ancs: ancestries_upto(u, u.peers.len()), ..u }
}

/// A maintenance round: parent selection, announcements, filters, expiry of paths.
pub open spec fn round<T: KeyTransform>(
    v: RouterView<T>,
    root_nonce: u64,
    nonces: Seq<u64>,
    now: u64,
) -> Outcome<T> {
    let (a, sent_a) = fixed(round_start(v, now), root_nonce, nonces, now);
    let (b, sent_b) = announced_all(a);
    let (c, sent_c) = blooms_maintained(b);
    (
        RouterView { pathfinder: cleaned(c.pathfinder, c.config.path_timeout, now), ..c },
        sent_a + sent_b + sent_c,
    )
}

proof fn lemma_cleaned_keeps_cached(p: crate::pathfinder::PathfinderView, timeout: u64, now: u64)
    requires
        crate::pathfinder::pathfinder_wf(p),
        cached_for_dest(p),
    ensures
        cached_for_dest(cleaned(p, timeout, now)),
{
    assert forall|k: PublicKey| (#[trigger] get(cleaned(p, timeout, now).paths, k)) is Some implies (
    get(cleaned(p, timeout, now).paths, k)->0.cached_traffic matches Some(t) ==> t.dest == k) by {
        crate::pathfinder::lemma_cleanup_keeps_the_fresh(p, timeout, now, k);
        assert(get(p.paths, k) is Some);
    }
}

impl<T: KeyTransform> Router<T> {
    /// Periodic maintenance (called about every second), with the random numbers that it may
    /// need. Returns a list of actions to execute.
    pub fn do_maintenance_with(&mut self, root_nonce: u64, nonces: &[u64], now: u64) -> (actions:
        Vec<RouterAction>)
        requires
            old(self).wf(),
            own_seq(old(self)@) < u64::MAX - 1,
            nonces@.len() == old(self)@.peers.len(),
        ensures
            final(self).wf(),
            (final(self)@, actions_view(actions@)) == round(
                old(self)@,
                root_nonce,
                nonces@,
                now,
            ),
    {
        let ghost v = self@;
        if now.saturating_sub(self.last_refresh) >= self.config.router_refresh {
            self.refresh = true;
            self.last_refresh = now;
        }
        self.do_root2 = self.do_root2 || self.do_root1;
        proof {
            assert(own_seq(self@) == own_seq(v));
            assert(seqs_in_step(self@));
        }
        self.reset_cache();
        self.update_ancestries();
        assert(self@ == round_start(v, now));
        assert(own_seq(self@) == own_seq(v));
        let mut actions = self.fix_with(root_nonce, nonces, now);
        let mut more = self.send_announces();
        proof {
            lemma_actions_concat(actions@, more@);
        }
        actions.append(&mut more);
        let mut blooms = self.blooms_maintenance();
        proof {
            lemma_actions_concat(actions@, blooms@);
        }
        actions.append(&mut blooms);
        let ghost c = self@;
        proof {
            lemma_cleaned_keeps_cached(c.pathfinder, c.config.path_timeout, now);
        }
        let timeout: u64 = self.config.path_timeout;
        self.pathfinder.cleanup_expired(timeout, now);
        proof {
            assert(own_seq(self@) == own_seq(c));
            assert(seqs_in_step(self@));
        }
        actions
    }

    /// Periodic maintenance (called about every second).
    /// Returns a list of actions to execute.
    pub fn do_maintenance(&mut self, now: u64) -> (actions: Vec<RouterAction>)
        requires
            old(self).wf(),
            own_seq(old(self)@) < u64::MAX - 1,
        ensures
            final(self).wf(),
            exists|root_nonce: u64, nonces: Seq<u64>|
                nonces.len() == old(self)@.peers.len() && (
                    final(self)@,
                    actions_view(actions@),
                ) == #[trigger] round(old(self)@, root_nonce, nonces, now),
    {
        let root_nonce: u64 = random_u64();
        let nonces = random_u64s(self.peers.len());
        self.do_maintenance_with(root_nonce, &nonces, now)
    }
}

// ---------------------------------------------------------------------------
// Expiry of tree info
// ---------------------------------------------------------------------------

/// Whether what is known of a node has grown too old; our own place is announced anew sooner.
pub open spec fn info_expired<T>(v: RouterView<T>, key: PublicKey, time: u64, now: u64) -> bool {
    elapsed(time, now) >= (if key == v.key {
        v.config.router_refresh
    } else {
        v.config.router_timeout
    })
}

/// The nodes of which what is known has grown too old.
pub open spec fn expired_keys<T>(
    v: RouterView<T>,
    times: Seq<(PublicKey, u64)>,
    now: u64,
) -> Seq<PublicKey>
    decreases times.len(),
{
    if times.len() == 0 {
        Seq::empty()
    } else {
        let rest = expired_keys(v, times.drop_last(), now);
        let (k, t) = times.last();
        if info_expired(v, k, t, now) {
            rest.push(k)
        } else {
            rest
        }
    }
}

/// The router without the node `key`; our own place is to be announced anew instead.
pub open spec fn forgotten<T>(v: RouterView<T>, key: PublicKey) -> RouterView<T> {
    if key == v.key {
        RouterView { refresh: true, ..v }
    } else {
        RouterView {
            infos: del(v.infos, key),
            info_times: del(v.info_times, key),
            sent: unsent(v.sent, key),
            ..v
        }
    }
}

/// The router without the nodes `keys`.
pub open spec fn all_forgotten<T>(v: RouterView<T>, keys: Seq<PublicKey>) -> RouterView<T>
    decreases keys.len(),
{
    if keys.len() == 0 {
        v
    } else {
        forgotten(all_forgotten(v, keys.drop_last()), keys.last())
    }
}

proof fn lemma_forgotten_wf<T>(v: RouterView<T>, key: PublicKey)
    requires
        router_wf(v),
    ensures
        router_wf(forgotten(v, key)),
{
    let w = forgotten(v, key);
    lemma_del(v.infos, key);
    lemma_del(v.info_times, key);
    lemma_unsent_wf(v.sent, key);
    assert(get(w.infos, v.key) == get(v.infos, v.key)) by {
        if key != v.key {
            assert(get(del(v.infos, key), v.key) == get(v.infos, v.key));
        }
    }
    assert(own_seq(w) == own_seq(v));
    assert(seqs_in_step(w));
}

impl<T: KeyTransform> Router<T> {
    /// Expires old router infos.
    pub fn expire_infos(&mut self, now: u64)
        requires
            old(self).wf(),
        ensures
            final(self).wf(),
            final(self)@ == all_forgotten(
                old(self)@,
                expired_keys(old(self)@, old(self)@.info_times, now),
            ),
    {
        let ghost v = self@;
        let self_key = self.crypto.public_key;
        let timeout: u64 = self.config.router_timeout;
        let refresh: u64 = self.config.router_refresh;
        let mut expired: Vec<PublicKey> = Vec::new();
        let mut i: usize = 0;
        assert(self.info_times@.take(0) =~= Seq::empty());
        while i < self.info_times.len()
            invariant
                *self == *old(self),
                v == self@,
                self_key == v.key,
                timeout == v.config.router_timeout,
                refresh == v.config.router_refresh,
                i <= self.info_times@.len(),
                expired@ == expired_keys(v, self.info_times@.take(i as int), now),
            decreases self.info_times@.len() - i,
        {
            assert(self.info_times@.take(i + 1).drop_last() =~= self.info_times@.take(i as int));
            let k = self.info_times.key_at(i);
            let t: u64 = *self.info_times.value_at(i);
            let age: u64 = now.saturating_sub(t);
            let old_enough: bool = if key_eq(&k, &self_key) {
                age >= refresh
            } else {
                age >= timeout
            };
            if old_enough {
                expired.push(k);
            }
            i += 1;
        }
        assert(self.info_times@.take(i as int) =~= self.info_times@);
        let mut n: usize = 0;
        assert(expired@.take(0) =~= Seq::empty());
        while n < expired.len()
            invariant
                n <= expired@.len(),
                self.wf(),
                self@ == all_forgotten(v, expired@.take(n as int)),
                self_key == self@.key,
            decreases expired@.len() - n,
        {
            assert(expired@.take(n + 1).drop_last() =~= expired@.take(n as int));
            let key = expired[n];
            let ghost before = self@;
            proof {
                lemma_forgotten_wf(before, key);
            }
            if key_eq(&key, &self_key) {
                self.refresh = true;
            } else {
                let _ = self.infos.remove(&key);
                let _ = self.info_times.remove(&key);
                self.unsend(&key);
                assert(self@ == forgotten(before, key));
                self.reset_cache();
            }
            n += 1;
        }
        assert(expired@.take(n as int) =~= expired@);
    }
}

// ---------------------------------------------------------------------------
// Laws
// ---------------------------------------------------------------------------

/// Becoming root always succeeds: the announcement is newer than the one before, and makes us
/// a root with empty coordinates.
pub proof fn lemma_becoming_root_succeeds<T>(v: RouterView<T>, nonce: u64, now: u64)
    requires
        own_seq(v) < u64::MAX,
    ensures
        ({
            let a = root_announce(v, nonce);
            let u = updated(v, a, now);
            &&& accepts(v.infos, a)
            &&& own_parent(u) == v.key
            &&& crate::tree::root_of(u.infos, v.key) == v.key
            &&& crate::tree::coords(u.infos, v.key) == Seq::<u64>::empty()
        }),
{
    let a = root_announce(v, nonce);
    let u = updated(v, a, now);
    lemma_put(v.infos, v.key, info_of(a));
    assert(get(u.infos, v.key) == Some(info_of(a)));
    crate::tree::lemma_coords_of_root(u.infos, v.key);
}

proof fn lemma_chosen_upto<T>(v: RouterView<T>, n: nat)
    requires
        n <= v.responses.len(),
    ensures
        ({
            let ch = chosen_upto(v, n);
            &&& ch.root == v.key || lex_less(ch.root@, v.key@)
            &&& forall|i: int|
                0 <= i < n && has_key(v.infos, (#[trigger] v.responses[i]).0) && !lineage(
                    v.infos,
                    v.responses[i].0,
                ).contains(v.key) ==> !lex_less(
                    top_key(v.infos, v.responses[i].0)@,
                    ch.root@,
                )
            &&& ch == first_choice(v) || !lineage(v.infos, ch.parent).contains(v.key)
        }),
    decreases n,
{
    if n > 0 {
        lemma_chosen_upto(v, (n - 1) as nat);
        let ch = chosen_upto(v, (n - 1) as nat);
        let pk = v.responses[n - 1].0;
        let root = top_key(v.infos, pk);
        let end = chosen_upto(v, n);
        crate::bytes::lemma_lex_irreflexive(root@);
        if lex_less(root@, ch.root@) && lex_less(ch.root@, v.key@) {
            crate::bytes::lemma_lex_transitive(root@, ch.root@, v.key@);
        }
        assert forall|i: int|
            0 <= i < n && has_key(v.infos, (#[trigger] v.responses[i]).0) && !lineage(
                v.infos,
                v.responses[i].0,
            ).contains(v.key) implies !lex_less(
            top_key(v.infos, v.responses[i].0)@,
            end.root@,
        ) by {
            let t = top_key(v.infos, v.responses[i].0);
            if i < n - 1 {
                assert(!lex_less(t@, ch.root@));
                if lex_less(t@, end.root@) && lex_less(end.root@, ch.root@) {
                    crate::bytes::lemma_lex_transitive(t@, end.root@, ch.root@);
                }
            }
        }
    }
}

/// Root election: the root that is chosen is never worse than ourselves, and no peer who
/// signed our place below it offers a smaller one without leading through us.
pub proof fn lemma_chosen_root_is_the_least<T>(v: RouterView<T>, i: int)
    requires
        0 <= i < v.responses.len(),
        has_key(v.infos, v.responses[i].0),
        !lineage(v.infos, v.responses[i].0).contains(v.key),
    ensures
        chosen(v).root == v.key || lex_less(chosen(v).root@, v.key@),
        !lex_less(top_key(v.infos, v.responses[i].0)@, chosen(v).root@),
{
    lemma_chosen_upto(v, v.responses.len());
}

proof fn lemma_top_key(infos: Infos, key: PublicKey)
    ensures
        top_key(infos, key)@ == top_of(infos, key),
{
    lemma_array_holds::<32>(top_of(infos, key));
}

/// Whether the peer at place `i` of those that signed our place can be our parent: it is known, and
/// its climb does not lead through us.
pub open spec fn eligible<T>(v: RouterView<T>, i: int) -> bool {
    &&& 0 <= i < v.responses.len()
    &&& has_key(v.infos, v.responses[i].0)
    &&& !lineage(v.infos, v.responses[i].0).contains(v.key)
}

/// What so many steps to the root cost over a connection: the number of steps times the cost of the
/// connection.
pub open spec fn way_cost<T>(v: RouterView<T>, steps: int, id: PeerId) -> u64 {
    let whole = steps * cost_of(v, id);
    if whole <= u64::MAX {
        whole as u64
    } else {
        u64::MAX
    }
}

/// How many steps it is from a known node to the last node of its climb.
pub open spec fn steps_up<T>(v: RouterView<T>, key: PublicKey) -> int {
    lineage(v.infos, key).len() - 1
}

proof fn lemma_group_cost<T>(v: RouterView<T>, group: Seq<(PeerId, PeerEntry)>, d: u64)
    ensures
        forall|j: int|
            0 <= j < group.len() ==> group_cost(v, group, d) <= product(
                d,
                cost_of(v, (#[trigger] group[j]).1.id),
            ),
        group_cost(v, group, d) == u64::MAX || exists|j: int|
            0 <= j < group.len() && group_cost(v, group, d) == product(
                d,
                cost_of(v, (#[trigger] group[j]).1.id),
            ),
    decreases group.len(),
{
    if group.len() > 0 {
        let g = group.drop_last();
        lemma_group_cost(v, g, d);
        assert(group[group.len() - 1] == group.last());
        assert forall|j: int| 0 <= j < group.len() implies group_cost(v, group, d) <= product(
            d,
            cost_of(v, (#[trigger] group[j]).1.id),
        ) by {
            if j < g.len() {
                assert(g[j] == group[j]);
            }
        }
        if group_cost(v, group, d) != u64::MAX && group_cost(v, group, d) == group_cost(v, g, d) {
            let j = choose|j: int|
                0 <= j < g.len() && group_cost(v, g, d) == product(
                    d,
                    cost_of(v, (#[trigger] g[j]).1.id),
                );
            assert(group[j] == g[j]);
        }
    }
}

/// Whether a number is the least cost of so many steps to the root over a peer: no connection is
/// cheaper, and one costs just that. Without a connection nothing is dearer.
pub open spec fn least_way<T>(v: RouterView<T>, key: PublicKey, steps: int, cost: u64) -> bool {
    match get(v.peers, key) {
        None => cost == u64::MAX,
        Some(group) => {
            &&& forall|j: int|
                0 <= j < group.len() ==> cost <= way_cost(v, steps, (#[trigger] group[j]).1.id)
            &&& cost == u64::MAX || exists|j: int|
                0 <= j < group.len() && cost == way_cost(v, steps, (#[trigger] group[j]).1.id)
        },
    }
}

proof fn lemma_peer_cost<T>(v: RouterView<T>, key: PublicKey, d: u64)
    ensures
        least_way(v, key, d as int, peer_cost(v, key, d)),
{
    assert forall|id: PeerId| #[trigger] way_cost(v, d as int, id) == product(d, cost_of(v, id)) by {
        let c = cost_of(v, id);
        assert(d * c >= 0) by (nonlinear_arith)
            requires
                d >= 0,
                c >= 0,
        ;
    }
    if let Some(group) = get(v.peers, key) {
        lemma_group_cost(v, group, d);
        let cost = group_cost(v, group, d);
        assert forall|j: int| 0 <= j < group.len() implies cost <= way_cost(
            v,
            d as int,
            (#[trigger] group[j]).1.id,
        ) by {}
        if cost != u64::MAX {
            let j = choose|j: int|
                0 <= j < group.len() && cost == product(d, cost_of(v, (#[trigger] group[j]).1.id));
            assert(cost == way_cost(v, d as int, group[j].1.id));
        }
    }
}

proof fn lemma_cost_up<T>(v: RouterView<T>, peer: PublicKey, key: PublicKey)
    requires
        has_key(v.infos, key),
        v.infos.len() <= u64::MAX,
    ensures
        least_way(v, peer, steps_up(v, key), peer_cost(v, peer, top_dist(v.infos, key))),
{
    lemma_lineage(v.infos, key);
    lemma_peer_cost(v, peer, top_dist(v.infos, key));
}

/// The choice among the first `n` responses. Away from the present parent it is the cheapest; with
/// the present parent, on a refresh, nothing costs less than half.
proof fn lemma_cheapest_upto<T>(v: RouterView<T>, n: nat)
    requires
        n <= v.responses.len(),
    ensures
        ({
            let ch = chosen_upto(v, n);
            &&& ch == first_choice(v) || exists|k: int|
                0 <= k < n && #[trigger] eligible(v, k) && v.responses[k].0 == ch.parent && top_key(
                    v.infos,
                    ch.parent,
                ) == ch.root && ch.cost == peer_cost(v, ch.parent, top_dist(v.infos, ch.parent))
            &&& forall|i: int|
                0 <= i < n && #[trigger] eligible(v, i) && top_key(v.infos, v.responses[i].0)
                    == ch.root ==> {
                    let c = peer_cost(v, v.responses[i].0, top_dist(v.infos, v.responses[i].0));
                    &&& ch.parent != own_parent(v) ==> ch.cost <= c
                    &&& v.refresh ==> ch.cost <= 2 * c
                }
        }),
    decreases n,
{
    if n > 0 {
        let m = (n - 1) as nat;
        lemma_cheapest_upto(v, m);
        lemma_chosen_upto(v, m);
        let ch = chosen_upto(v, m);
        let end = chosen_upto(v, n);
        let pk = v.responses[n - 1].0;
        let root = top_key(v.infos, pk);
        crate::bytes::lemma_lex_irreflexive(root@);
        if end != ch {
            assert(eligible(v, n - 1));
        } else if ch != first_choice(v) {
            let k = choose|k: int|
                0 <= k < m && #[trigger] eligible(v, k) && v.responses[k].0 == ch.parent && top_key(
                    v.infos,
                    ch.parent,
                ) == ch.root && ch.cost == peer_cost(v, ch.parent, top_dist(v.infos, ch.parent));
            assert(0 <= k < n && eligible(v, k));
        }
        assert forall|i: int|
            0 <= i < n && #[trigger] eligible(v, i) && top_key(v.infos, v.responses[i].0)
                == end.root implies {
            let c = peer_cost(v, v.responses[i].0, top_dist(v.infos, v.responses[i].0));
            &&& end.parent != own_parent(v) ==> end.cost <= c
            &&& v.refresh ==> end.cost <= 2 * c
        } by {
            let x = v.responses[i].0;
            if i < m {
                assert(!lex_less(top_key(v.infos, x)@, ch.root@));
            }
        }
    }
}

proof fn lemma_least_way<T>(v: RouterView<T>, key: PublicKey, steps: int, a: u64, b: u64)
    requires
        least_way(v, key, steps, a),
        least_way(v, key, steps, b),
    ensures
        a == b,
{
    if let Some(group) = get(v.peers, key) {
        if a != u64::MAX {
            let j = choose|j: int|
                0 <= j < group.len() && a == way_cost(v, steps, (#[trigger] group[j]).1.id);
            assert(b <= way_cost(v, steps, group[j].1.id));
        }
        if b != u64::MAX {
            let j = choose|j: int|
                0 <= j < group.len() && b == way_cost(v, steps, (#[trigger] group[j]).1.id);
            assert(a <= way_cost(v, steps, group[j].1.id));
        }
    }
}

/// The chosen parent is one that was offered: it is known, signed our place, does not lead through us
/// and stands below the chosen root, and the cost is that of the steps from it to the root. Else
/// everything stays as it is: we keep our present parent, whose root is ours, at the cost of our
/// own steps to the root; or we are a root ourselves.
pub proof fn lemma_chosen_parent_was_offered<T>(v: RouterView<T>)
    requires
        v.infos.len() <= u64::MAX,
    ensures
        ({
            let ch = chosen(v);
            ||| exists|k: int| #[trigger]
                eligible(v, k) && v.responses[k].0 == ch.parent && top_of(v.infos, ch.parent)
                    == ch.root@ && least_way(v, ch.parent, steps_up(v, ch.parent), ch.cost)
            ||| ch.parent == own_parent(v) && has_key(v.peers, ch.parent) && top_of(v.infos, v.key)
                == ch.root@ && lex_less(ch.root@, v.key@) && (has_key(v.infos, v.key) ==> least_way(
                v,
                ch.parent,
                steps_up(v, v.key),
                ch.cost,
            ))
            ||| ch.parent == v.key && ch.root == v.key && ch.cost == u64::MAX
        }),
{
    let ch = chosen(v);
    lemma_cheapest_upto(v, v.responses.len());
    if ch == first_choice(v) {
        lemma_top_key(v.infos, v.key);
        if has_key(v.infos, v.key) {
            lemma_cost_up(v, ch.parent, v.key);
        }
    } else {
        let k = choose|k: int|
            0 <= k < v.responses.len() && #[trigger] eligible(v, k) && v.responses[k].0 == ch.parent
                && top_key(v.infos, ch.parent) == ch.root && ch.cost == peer_cost(
                v,
                ch.parent,
                top_dist(v.infos, ch.parent),
            );
        lemma_top_key(v.infos, ch.parent);
        lemma_cost_up(v, ch.parent, ch.parent);
        assert(eligible(v, k));
    }
}

/// The way to the root is the cheapest: where we leave our present parent, no peer that signed our
/// place, is known, does not lead through us and has the chosen root costs less than the chosen
/// one. What a peer costs is the number of steps from it to the root times the least cost of a
/// connection to it. On a refresh none costs less than half of what is chosen, whether we leave
/// or not.
pub proof fn lemma_chosen_parent_is_cheapest<T>(v: RouterView<T>, i: int, cost: u64)
    requires
        v.infos.len() <= u64::MAX,
        eligible(v, i),
        top_of(v.infos, v.responses[i].0) == chosen(v).root@,
        least_way(v, v.responses[i].0, steps_up(v, v.responses[i].0), cost),
    ensures
        chosen(v).parent != own_parent(v) ==> least_way(
            v,
            chosen(v).parent,
            steps_up(v, chosen(v).parent),
            chosen(v).cost,
        ) && chosen(v).cost <= cost,
        v.refresh ==> chosen(v).cost <= 2 * cost,
{
    let ch = chosen(v);
    let pk = v.responses[i].0;
    lemma_cheapest_upto(v, v.responses.len());
    lemma_cost_up(v, pk, pk);
    lemma_least_way(v, pk, steps_up(v, pk), cost, peer_cost(v, pk, top_dist(v.infos, pk)));
    lemma_top_key(v.infos, pk);
    lemma_array_view_eq(top_key(v.infos, pk), ch.root);
    assert(top_key(v.infos, pk) == ch.root);
    if ch.parent != own_parent(v) {
        lemma_chosen_parent_was_offered(v);
        if ch.parent == v.key && ch.root == v.key {
            lemma_lineage(v.infos, pk);
            let l = lineage(v.infos, pk);
            lemma_array_view_eq(l.last(), v.key);
            assert(l[l.len() - 1] == v.key);
            assert(l.contains(v.key));
        }
    }
}

/// We keep our parent unless there is reason to leave: where it has a connection and stands below a
/// better root than ourselves, and no peer that signed our place offers a better root still, it
/// stays the parent unless a refresh is due. On a refresh it stays unless a peer with the same
/// root costs less than half.
pub proof fn lemma_parent_is_kept<T>(v: RouterView<T>, present: u64)
    requires
        v.infos.len() <= u64::MAX,
        has_key(v.infos, v.key),
        has_key(v.peers, own_parent(v)),
        lex_less(top_of(v.infos, v.key), v.key@),
        least_way(v, own_parent(v), steps_up(v, v.key), present),
        forall|i: int| #[trigger]
            eligible(v, i) ==> !lex_less(
                top_of(v.infos, v.responses[i].0),
                top_of(v.infos, v.key),
            ),
        v.refresh ==> forall|i: int, cost: u64|
            eligible(v, i) && top_of(v.infos, v.responses[i].0) == top_of(v.infos, v.key)
                && #[trigger] least_way(
                v,
                v.responses[i].0,
                steps_up(v, v.responses[i].0),
                cost,
            ) ==> present <= 2 * cost,
    ensures
        chosen(v).parent == own_parent(v),
        chosen(v).root@ == top_of(v.infos, v.key),
        chosen(v).cost == present,
{
    lemma_top_key(v.infos, v.key);
    lemma_cost_up(v, own_parent(v), v.key);
    lemma_least_way(v, own_parent(v), steps_up(v, v.key), present, first_choice(v).cost);
    lemma_kept_upto(v, v.responses.len());
}

proof fn lemma_kept_upto<T>(v: RouterView<T>, n: nat)
    requires
        v.infos.len() <= u64::MAX,
        n <= v.responses.len(),
        first_choice(v).root@ == top_of(v.infos, v.key),
        first_choice(v).parent == own_parent(v),
        forall|i: int| #[trigger]
            eligible(v, i) ==> !lex_less(
                top_of(v.infos, v.responses[i].0),
                top_of(v.infos, v.key),
            ),
        v.refresh ==> forall|i: int, cost: u64|
            eligible(v, i) && top_of(v.infos, v.responses[i].0) == top_of(v.infos, v.key)
                && #[trigger] least_way(
                v,
                v.responses[i].0,
                steps_up(v, v.responses[i].0),
                cost,
            ) ==> first_choice(v).cost <= 2 * cost,
    ensures
        chosen_upto(v, n) == first_choice(v),
    decreases n,
{
    if n > 0 {
        lemma_kept_upto(v, (n - 1) as nat);
        let pk = v.responses[n - 1].0;
        if eligible(v, n - 1) {
            lemma_top_key(v.infos, pk);
            lemma_cost_up(v, pk, pk);
        }
    }
}

/// A new parent never leads through us: parent selection makes no loops in the tree as we
/// know it.
pub proof fn lemma_chosen_parent_makes_no_loop<T>(v: RouterView<T>)
    ensures
        chosen(v) == first_choice(v) || !lineage(v.infos, chosen(v).parent).contains(v.key),
{
    lemma_chosen_upto(v, v.responses.len());
}

proof fn lemma_all_forgotten<T>(v: RouterView<T>, keys: Seq<PublicKey>, k: PublicKey)
    requires
        router_wf(v),
    ensures
        router_wf(all_forgotten(v, keys)),
        all_forgotten(v, keys).key == v.key,
        get(all_forgotten(v, keys).infos, k) == (if keys.contains(k) && k != v.key {
            None
        } else {
            get(v.infos, k)
        }),
    decreases keys.len(),
{
    if keys.len() > 0 {
        let d = keys.drop_last();
        lemma_all_forgotten(v, d, k);
        let u = all_forgotten(v, d);
        lemma_forgotten_wf(u, keys.last());
        lemma_del(u.infos, keys.last());
        assert(keys.contains(k) == (d.contains(k) || keys.last() == k)) by {
            if keys.contains(k) {
                let i = choose|i: int| 0 <= i < keys.len() && keys[i] == k;
                if i < d.len() {
                    assert(d[i] == k);
                }
            }
            if d.contains(k) {
                let i = choose|i: int| 0 <= i < d.len() && d[i] == k;
                assert(keys[i] == k);
            }
            if keys.last() == k {
                assert(keys[keys.len() - 1] == k);
            }
        }
        if keys.last() != v.key {
            assert(get(del(u.infos, keys.last()), k) == (if k == keys.last() {
                None
            } else {
                get(u.infos, k)
            }));
        }
    }
}

proof fn lemma_expired_keys<T>(
    v: RouterView<T>,
    times: Seq<(PublicKey, u64)>,
    now: u64,
    k: PublicKey,
)
    requires
        distinct(times),
    ensures
        expired_keys(v, times, now).contains(k) == (get(times, k) matches Some(t) && info_expired(
            v,
            k,
            t,
            now,
        )),
    decreases times.len(),
{
    let e = expired_keys(v, times, now);
    if times.len() == 0 {
        lemma_find(times, k);
    } else {
        let d = times.drop_last();
        let (lk, lt) = times.last();
        assert(distinct(d));
        lemma_expired_keys(v, d, now, k);
        let ed = expired_keys(v, d, now);
        assert(!has_key(d, lk)) by {
            lemma_find(d, lk);
            if has_key(d, lk) {
                assert(times[find(d, lk)].0 != times[times.len() - 1].0);
            }
        }
        assert(times =~= put(d, lk, lt));
        lemma_put(d, lk, lt);
        assert(get(put(d, lk, lt), k) == (if k == lk {
            Some(lt)
        } else {
            get(d, k)
        }));
        if e.contains(k) {
            let i = choose|i: int| 0 <= i < e.len() && e[i] == k;
            if i < ed.len() {
                assert(ed[i] == k);
            }
        }
        if ed.contains(k) {
            let i = choose|i: int| 0 <= i < ed.len() && ed[i] == k;
            assert(e[i] == k);
        }
        if k == lk && info_expired(v, lk, lt, now) {
            assert(e[e.len() - 1] == k);
        }
    }
}

/// Expiry forgets exactly the other nodes that were not heard of for the timeout; what is
/// known of everyone else stays, our own place included.
pub proof fn lemma_expiry_forgets_exactly_the_old<T>(v: RouterView<T>, now: u64, k: PublicKey)
    requires
        router_wf(v),
    ensures
        get(all_forgotten(v, expired_keys(v, v.info_times, now)).infos, k) == (if k != v.key && (get(
            v.info_times,
            k,
        ) matches Some(t) && elapsed(t, now) >= v.config.router_timeout) {
            None
        } else {
            get(v.infos, k)
        }),
{
    lemma_all_forgotten(v, expired_keys(v, v.info_times, now), k);
    lemma_expired_keys(v, v.info_times, now, k);
}

proof fn lemma_fresh_keys_hold(set: Seq<(PublicKey, ())>, keys: Seq<PublicKey>, i: int)
    requires
        0 <= i < keys.len(),
    ensures
        has_key(fresh_keys(set, keys).0, keys[i]),
    decreases keys.len(),
{
    let s = fresh_keys(set, keys.drop_last()).0;
    lemma_put(s, keys.last(), ());
    if i < keys.len() - 1 {
        lemma_fresh_keys_hold(set, keys.drop_last(), i);
        assert(keys.drop_last()[i] == keys[i]);
        assert(get(s, keys[i]) is Some);
        assert(get(put(s, keys.last(), ()), keys[i]) is Some);
    } else {
        assert(get(put(s, keys.last(), ()), keys[i]) is Some);
    }
}

/// Gossip: after the announcements went out every peer has been sent its own and our whole
/// ancestry, and there is nothing left to send until the tree changes.
pub proof fn lemma_gossip_covers_ancestries<T>(v: RouterView<T>, i: int, j: int)
    requires
        0 <= i < v.sent.len(),
        0 <= j < wanted(v, v.sent[i].0).len(),
    ensures
        has_key(announced_all(v).0.sent[i].1, wanted(v, v.sent[i].0)[j]),
{
    lemma_fresh_keys_hold(v.sent[i].1, wanted(v, v.sent[i].0), j);
}

proof fn lemma_asked_group<T>(
    v: RouterView<T>,
    group: Seq<(PeerId, PeerEntry)>,
    req: SigReqState,
    now: u64,
    n: nat,
    i: int,
)
    requires
        0 <= i < n <= group.len(),
    ensures
        asked_group(v, group, req, now, n).1.contains(
            ActionView::SendSigReq {
                peer_id: group[i].0,
                req: SigReq { seq: req.seq, nonce: req.nonce },
            },
        ),
    decreases n,
{
    let a = ActionView::SendSigReq {
        peer_id: group[i].0,
        req: SigReq { seq: req.seq, nonce: req.nonce },
    };
    let all = asked_group(v, group, req, now, n).1;
    if i < n - 1 {
        lemma_asked_group(v, group, req, now, (n - 1) as nat, i);
        let rest = asked_group(v, group, req, now, (n - 1) as nat).1;
        let j = choose|j: int| 0 <= j < rest.len() && rest[j] == a;
        assert(all[j] == a);
    } else {
        assert(all[all.len() - 1] == a);
    }
}

proof fn lemma_asked_group_keeps<T>(
    v: RouterView<T>,
    group: Seq<(PeerId, PeerEntry)>,
    req: SigReqState,
    now: u64,
    n: nat,
)
    ensures
        ({
            let u = asked_group(v, group, req, now, n).0;
            &&& u.requests == v.requests
            &&& u.peers == v.peers
            &&& u.responses == v.responses
            &&& u.infos == v.infos
            &&& u.key == v.key
            &&& u.refresh == v.refresh
            &&& u.do_root1 == v.do_root1
            &&& u.do_root2 == v.do_root2
            &&& u.sent == v.sent
            &&& u.blooms == v.blooms
        }),
    decreases n,
{
    if n > 0 {
        lemma_asked_group_keeps(v, group, req, now, (n - 1) as nat);
    }
}

proof fn lemma_asked_upto<T>(v: RouterView<T>, nonces: Seq<u64>, now: u64, n: nat)
    requires
        distinct(v.peers),
        n <= v.peers.len(),
    ensures
        ({
            let (u, sent) = asked_upto(v, nonces, now, n);
            &&& u.peers == v.peers
            &&& u.responses == v.responses
            &&& u.infos == v.infos
            &&& u.key == v.key
            &&& u.refresh == v.refresh
            &&& u.do_root1 == v.do_root1
            &&& u.do_root2 == v.do_root2
            &&& forall|i: int|
                0 <= i < n ==> get(u.requests, (#[trigger] v.peers[i]).0) == Some(
                    next_req(v, nonces[i]),
                )
            &&& forall|i: int, j: int|
                0 <= i < n && 0 <= j < v.peers[i].1.len() ==> sent.contains(
                    ActionView::SendSigReq {
                        peer_id: (#[trigger] v.peers[i].1[j]).0,
                        req: SigReq {
                            seq: next_req(v, nonces[i]).seq,
                            nonce: next_req(v, nonces[i]).nonce,
                        },
                    },
                )
        }),
    decreases n,
{
    if n > 0 {
        let m = (n - 1) as nat;
        lemma_asked_upto(v, nonces, now, m);
        let (u, sent) = asked_upto(v, nonces, now, m);
        let (pk, group) = v.peers[m as int];
        let req = next_req(v, nonces[m as int]);
        let w = RouterView { requests: put(u.requests, pk, req), ..u };
        lemma_asked_group_keeps(w, group, req, now, group.len());
        lemma_put(u.requests, pk, req);
        let (end, all) = asked_upto(v, nonces, now, n);
        let more = asked_group(w, group, req, now, group.len()).1;
        assert(all == sent + more);
        assert forall|i: int| 0 <= i < n implies get(end.requests, (#[trigger] v.peers[i]).0) == Some(
            next_req(v, nonces[i]),
        ) by {
            if i < m {
                assert(v.peers[i].0 != v.peers[m as int].0);
                assert(get(put(u.requests, pk, req), v.peers[i].0) == get(u.requests, v.peers[i].0));
            } else {
                assert(get(put(u.requests, pk, req), pk) == Some(req));
            }
        }
        assert forall|i: int, j: int| 0 <= i < n && 0 <= j < v.peers[i].1.len() implies all.contains(
            ActionView::SendSigReq {
                peer_id: (#[trigger] v.peers[i].1[j]).0,
                req: SigReq {
                    seq: next_req(v, nonces[i]).seq,
                    nonce: next_req(v, nonces[i]).nonce,
                },
            },
        ) by {
            let a = ActionView::SendSigReq {
                peer_id: v.peers[i].1[j].0,
                req: SigReq {
                    seq: next_req(v, nonces[i]).seq,
                    nonce: next_req(v, nonces[i]).nonce,
                },
            };
            if i < m {
                let k = choose|k: int| 0 <= k < sent.len() && sent[k] == a;
                assert(all[k] == a);
            } else {
                lemma_asked_group(w, group, req, now, group.len(), j);
                let k = choose|k: int| 0 <= k < more.len() && more[k] == a;
                assert(all[sent.len() + k] == a);
            }
        }
    }
}

/// After a change of place everyone is asked anew: every connection of every peer is sent a request
/// for the number after our own, each peer's is the one that is remembered for it, and earlier
/// answers are forgotten.
pub proof fn lemma_everyone_is_asked_anew<T>(
    v: RouterView<T>,
    nonces: Seq<u64>,
    now: u64,
    i: int,
    j: int,
)
    requires
        distinct(v.peers),
        0 <= i < v.peers.len(),
        0 <= j < v.peers[i].1.len(),
        own_seq(v) < u64::MAX,
    ensures
        ({
            let (u, sent) = asked(v, nonces, now);
            &&& sent.contains(
                ActionView::SendSigReq {
                    peer_id: v.peers[i].1[j].0,
                    req: SigReq { seq: (own_seq(v) + 1) as u64, nonce: nonces[i] },
                },
            )
            &&& get(u.requests, v.peers[i].0) == Some(
                SigReqState { seq: (own_seq(v) + 1) as u64, nonce: nonces[i] },
            )
            &&& u.responses.len() == 0
            &&& u.infos == v.infos && u.peers == v.peers
        }),
{
    let cleared = RouterView {
        requests: Seq::empty(),
        responses: Seq::empty(),
        res_seqs: Seq::empty(),
        res_seq_ctr: 0,
        ..v
    };
    lemma_asked_upto(cleared, nonces, now, v.peers.len());
    let (u, sent) = asked(v, nonces, now);
    assert(next_req(cleared, nonces[i]) == next_req(v, nonces[i]));
    let x = cleared.peers[i].1[j].0;
    assert(get(u.requests, cleared.peers[i].0) == Some(next_req(cleared, nonces[i])));
}

/// The choice takes effect: where it is another parent than ours, or our place is to be announced
/// anew, and the chosen parent signed a place that wins over ours, we are below it afterwards, at
/// the port that it gave. Where that cannot be, we become a root the second time in a row, and only
/// take note the first time. Otherwise nothing happens at all.
pub proof fn lemma_choice_takes_effect<T>(
    v: RouterView<T>,
    root_nonce: u64,
    nonces: Seq<u64>,
    now: u64,
)
    requires
        router_wf(v),
        own_seq(v) < u64::MAX,
    ensures
        ({
            let ch = chosen(v);
            let (u, sent) = fixed(v, root_nonce, nonces, now);
            let due = v.refresh || v.do_root1 || v.do_root2 || own_parent(v) != ch.parent;
            let can = ch.root != v.key && (get(v.responses, ch.parent) matches Some(res) && accepts(
                v.infos,
                child_announce(v, ch.parent, res),
            ));
            &&& !due ==> u == v && sent.len() == 0
            &&& due && can ==> own_parent(u) == ch.parent && get(u.infos, v.key)->0.port == get(
                v.responses,
                ch.parent,
            )->0.port && get(u.infos, v.key)->0.seq == get(v.responses, ch.parent)->0.seq
                && !u.refresh && !u.do_root1 && !u.do_root2
            &&& due && !can && v.do_root2 ==> own_parent(u) == v.key && own_seq(u) == own_seq(v) + 1
                && !u.refresh && !u.do_root1 && !u.do_root2
            &&& due && !can && !v.do_root2 ==> u.infos == v.infos && u.do_root1 && sent.len() == 0
                && u.refresh == v.refresh
        }),
{
    let ch = chosen(v);
    let (u, sent) = fixed(v, root_nonce, nonces, now);
    if let Some(res) = get(v.responses, ch.parent) {
        let a = child_announce(v, ch.parent, res);
        lemma_effect_of_announcing(v, a, nonces, now);
    }
    lemma_becoming_root_succeeds(v, root_nonce, now);
    lemma_effect_of_announcing(v, root_announce(v, root_nonce), nonces, now);
}

proof fn lemma_effect_of_announcing<T>(
    v: RouterView<T>,
    a: RouterAnnounce,
    nonces: Seq<u64>,
    now: u64,
)
    requires
        router_wf(v),
        a.key == v.key,
    ensures
        accepts(v.infos, a) ==> {
            let u = asked(settled(v, a, now), nonces, now).0;
            &&& get(u.infos, v.key) == Some(info_of(a))
            &&& u.key == v.key
            &&& !u.refresh && !u.do_root1 && !u.do_root2
        },
{
    let w = settled(v, a, now);
    let cleared = RouterView {
        requests: Seq::empty(),
        responses: Seq::empty(),
        res_seqs: Seq::empty(),
        res_seq_ctr: 0,
        ..w
    };
    lemma_asked_upto(cleared, nonces, now, w.peers.len());
    lemma_put(v.infos, v.key, info_of(a));
    assert(get(put(v.infos, v.key, info_of(a)), v.key) == Some(info_of(a)));
}

proof fn lemma_fresh_keys_list(set: Seq<(PublicKey, ())>, keys: Seq<PublicKey>, k: PublicKey)
    ensures
        fresh_keys(set, keys).1.contains(k) <==> keys.contains(k) && !has_key(set, k),
        get(fresh_keys(set, keys).0, k) is Some <==> has_key(set, k) || keys.contains(k),
        fresh_keys(set, keys).1.no_duplicates(),
    decreases keys.len(),
{
    if keys.len() > 0 {
        let d = keys.drop_last();
        let (s, l) = fresh_keys(set, d);
        let last = keys.last();
        lemma_fresh_keys_list(set, d, k);
        lemma_fresh_keys_list(set, d, last);
        lemma_put(s, last, ());
        assert(get(put(s, last, ()), k) == (if k == last { Some(()) } else { get(s, k) }));
        assert(keys.contains(k) <==> d.contains(k) || k == last) by {
            if d.contains(k) {
                let i = choose|i: int| 0 <= i < d.len() && d[i] == k;
                assert(keys[i] == k);
            }
            assert(keys[keys.len() - 1] == last);
            if keys.contains(k) {
                let i = choose|i: int| 0 <= i < keys.len() && keys[i] == k;
                if i < d.len() {
                    assert(d[i] == k);
                }
            }
        }
        let all = l.push(last);
        assert(all.contains(k) <==> l.contains(k) || k == last) by {
            if l.contains(k) {
                let i = choose|i: int| 0 <= i < l.len() && l[i] == k;
                assert(all[i] == k);
            }
            assert(all[l.len() as int] == last);
            if all.contains(k) {
                let i = choose|i: int| 0 <= i < all.len() && all[i] == k;
                if i < l.len() {
                    assert(l[i] == k);
                }
            }
        }
        assert(get(s, last) is Some == has_key(s, last));
        if !has_key(s, last) {
            assert forall|i: int, j: int| 0 <= i < all.len() && 0 <= j < all.len() && i != j implies all[i]
                != all[j] by {
                if i < l.len() {
                    assert(l.contains(l[i]));
                }
                if j < l.len() {
                    assert(l.contains(l[j]));
                }
            }
        }
    } else {
        assert(get(set, k) is Some == has_key(set, k));
        if fresh_keys(set, keys).1.contains(k) {
            assert(false);
        }
    }
}

proof fn lemma_announcements_has(infos: Infos, keys: Seq<PublicKey>, i: int)
    requires
        0 <= i < keys.len(),
        get(infos, keys[i]) is Some,
    ensures
        announcements(infos, keys).contains(wire_of(announce_of(get(infos, keys[i])->0, keys[i]))),
    decreases keys.len(),
{
    let d = keys.drop_last();
    let all = announcements(infos, keys);
    let a = wire_of(announce_of(get(infos, keys[i])->0, keys[i]));
    if i < d.len() {
        lemma_announcements_has(infos, d, i);
        let rest = announcements(infos, d);
        assert(d[i] == keys[i]);
        let j = choose|j: int| 0 <= j < rest.len() && rest[j] == a;
        assert(all[j] == a);
    } else {
        assert(all[all.len() - 1] == a);
    }
}

proof fn lemma_announced_to_has(group: Seq<(PeerId, PeerEntry)>, anns: Seq<Announce>, i: int, j: int)
    requires
        0 <= i < group.len(),
        0 <= j < anns.len(),
    ensures
        announced_to(group, anns).contains(
            ActionView::SendAnnounce { peer_id: group[i].1.id, ann: anns[j] },
        ),
    decreases group.len(),
{
    let d = group.drop_last();
    let a = ActionView::SendAnnounce { peer_id: group[i].1.id, ann: anns[j] };
    let rest = announced_to(d, anns);
    let all = announced_to(group, anns);
    if i < d.len() {
        lemma_announced_to_has(d, anns, i, j);
        assert(d[i] == group[i]);
        let k = choose|k: int| 0 <= k < rest.len() && rest[k] == a;
        assert(all[k] == a);
    } else {
        assert(announced_on(group.last().1.id, anns)[j] == a);
        assert(all[rest.len() + j] == a);
    }
}

proof fn lemma_announced_upto_has<T>(v: RouterView<T>, n: nat, i: int, a: ActionView)
    requires
        0 <= i < n <= v.sent.len(),
        announced_peer(v, i).contains(a),
    ensures
        announced_upto(v, n).contains(a),
    decreases n,
{
    let rest = announced_upto(v, (n - 1) as nat);
    let all = announced_upto(v, n);
    if i < n - 1 {
        lemma_announced_upto_has(v, (n - 1) as nat, i, a);
        let k = choose|k: int| 0 <= k < rest.len() && rest[k] == a;
        assert(all[k] == a);
    } else {
        let more = announced_peer(v, i);
        let k = choose|k: int| 0 <= k < more.len() && more[k] == a;
        assert(all[rest.len() + k] == a);
    }
}

/// Gossip: each peer is sent, on each of its connections, what is known of every node above us and
/// above itself, ourselves and itself among them, unless it was sent that already. Afterwards just
/// that is marked as sent, so that it is not sent again.
pub proof fn lemma_peers_are_told_of_the_tree<T>(
    v: RouterView<T>,
    i: int,
    j: int,
    k: PublicKey,
)
    requires
        0 <= i < v.sent.len(),
        get(v.peers, v.sent[i].0) matches Some(group) && 0 <= j < group.len(),
    ensures
        ({
            let (u, sent) = announced_all(v);
            let peer = v.sent[i].0;
            let due = lineage(v.infos, v.key).contains(k) || lineage(v.infos, peer).contains(k);
            &&& due && !has_key(v.sent[i].1, k) ==> (get(v.infos, k) matches Some(info) ==> sent.contains(
                ActionView::SendAnnounce {
                    peer_id: get(v.peers, peer)->0[j].1.id,
                    ann: wire_of(announce_of(info, k)),
                },
            ))
            &&& u.sent.len() == v.sent.len() && u.sent[i].0 == peer
            &&& get(u.sent[i].1, k) is Some <==> has_key(v.sent[i].1, k) || due
            &&& u.infos == v.infos
        }),
{
    let peer = v.sent[i].0;
    let set = v.sent[i].1;
    let keys = wanted(v, peer);
    let group = get(v.peers, peer)->0;
    let a = lineage(v.infos, v.key);
    let b = lineage(v.infos, peer);
    let x = a.reverse();
    let y = b.reverse();
    assert(keys.contains(k) <==> a.contains(k) || b.contains(k)) by {
        if a.contains(k) {
            let m = choose|m: int| 0 <= m < a.len() && a[m] == k;
            assert(x[a.len() - 1 - m] == k);
            assert(keys[a.len() - 1 - m] == k);
        }
        if b.contains(k) {
            let m = choose|m: int| 0 <= m < b.len() && b[m] == k;
            assert(y[b.len() - 1 - m] == k);
            assert(keys[x.len() + (b.len() - 1 - m)] == k);
        }
        if keys.contains(k) {
            let m = choose|m: int| 0 <= m < keys.len() && keys[m] == k;
            if m < x.len() {
                assert(a[a.len() - 1 - m] == k);
            } else {
                assert(b[b.len() - 1 - (m - x.len())] == k);
            }
        }
    }
    lemma_fresh_keys_list(set, keys, k);
    let list = fresh_keys(set, keys).1;
    if keys.contains(k) && !has_key(set, k) && get(v.infos, k) is Some {
        let m = choose|m: int| 0 <= m < list.len() && list[m] == k;
        lemma_announcements_has(v.infos, list, m);
        let anns = announcements(v.infos, list);
        let w = wire_of(announce_of(get(v.infos, k)->0, k));
        let q = choose|q: int| 0 <= q < anns.len() && anns[q] == w;
        lemma_announced_to_has(group, anns, j, q);
        let act = ActionView::SendAnnounce { peer_id: group[j].1.id, ann: w };
        assert(announced_peer(v, i).contains(act));
        lemma_announced_upto_has(v, v.sent.len(), i, act);
    }
}

/// A filter for a peer goes out on every connection that it has.
pub proof fn lemma_filters_go_out_everywhere(
    peers: PeersView,
    list: Seq<(PublicKey, Set<int>)>,
    i: int,
    j: int,
)
    requires
        0 <= i < list.len(),
        get(peers, list[i].0) matches Some(group) && 0 <= j < group.len(),
    ensures
        blooms_sent(peers, list).contains(
            ActionView::SendBloom {
                peer_id: get(peers, list[i].0)->0[j].1.id,
                bloom: list[i].1,
            },
        ),
    decreases list.len(),
{
    let d = list.drop_last();
    let rest = blooms_sent(peers, d);
    let all = blooms_sent(peers, list);
    let a = ActionView::SendBloom { peer_id: get(peers, list[i].0)->0[j].1.id, bloom: list[i].1 };
    if i < d.len() {
        lemma_filters_go_out_everywhere(peers, d, i, j);
        assert(d[i] == list[i]);
        let k = choose|k: int| 0 <= k < rest.len() && rest[k] == a;
        assert(all[k] == a);
    } else {
        let group = get(peers, list[i].0)->0;
        assert(crate::neighbours::bloom_to_group(group, list[i].1)[j] == a);
        assert(all[rest.len() + j] == a);
    }
}

/// A maintenance round starts with a refresh if one was asked for or the last is as long ago as set,
/// which is then counted from now; and a change to being a root that was put off is due now.
pub proof fn lemma_when_a_refresh_is_due<T>(v: RouterView<T>, now: u64)
    requires
        v.last_refresh <= now,
    ensures
        round_start(v, now).refresh <==> v.refresh || now >= v.last_refresh + v.config.router_refresh,
        round_start(v, now).last_refresh == (if now >= v.last_refresh + v.config.router_refresh {
            now
        } else {
            v.last_refresh
        }),
        round_start(v, now).do_root2 <==> v.do_root1 || v.do_root2,
        round_start(v, now).infos == v.infos,
        round_start(v, now).responses == v.responses,
{
}

proof fn lemma_forgotten_refresh<T>(v: RouterView<T>, keys: Seq<PublicKey>)
    ensures
        all_forgotten(v, keys).refresh <==> v.refresh || keys.contains(v.key),
        all_forgotten(v, keys).key == v.key,
    decreases keys.len(),
{
    if keys.len() > 0 {
        let d = keys.drop_last();
        lemma_forgotten_refresh(v, d);
        if d.contains(v.key) {
            let i = choose|i: int| 0 <= i < d.len() && d[i] == v.key;
            assert(keys[i] == v.key);
        }
        assert(keys[keys.len() - 1] == keys.last());
        if keys.contains(v.key) {
            let i = choose|i: int| 0 <= i < keys.len() && keys[i] == v.key;
            if i < d.len() {
                assert(d[i] == v.key);
            }
        }
    }
}

/// Our own place is never forgotten: when it has grown as old as the time between refreshes, it is
/// announced anew instead. Nothing else makes expiry ask for a refresh.
pub proof fn lemma_forgetting_and_refresh<T>(v: RouterView<T>, now: u64)
    requires
        router_wf(v),
    ensures
        all_forgotten(v, expired_keys(v, v.info_times, now)).refresh <==> v.refresh || (get(
            v.info_times,
            v.key,
        ) matches Some(t) && elapsed(t, now) >= v.config.router_refresh),
        get(all_forgotten(v, expired_keys(v, v.info_times, now)).infos, v.key) == get(v.infos, v.key),
{
    lemma_forgotten_refresh(v, expired_keys(v, v.info_times, now));
    lemma_expired_keys(v, v.info_times, now, v.key);
    lemma_expiry_forgets_exactly_the_old(v, now, v.key);
}

proof fn lemma_first_cheapest_upto<T>(v: RouterView<T>, n: nat)
    requires
        n <= v.responses.len(),
    ensures
        ({
            let ch = chosen_upto(v, n);
            ch == first_choice(v) || exists|k: int|
                0 <= k < n && #[trigger] eligible(v, k) && v.responses[k].0 == ch.parent && forall|
                    i: int,
                |
                    0 <= i < k && #[trigger] eligible(v, i) && top_key(v.infos, v.responses[i].0)
                        == ch.root ==> ch.cost < peer_cost(
                        v,
                        v.responses[i].0,
                        top_dist(v.infos, v.responses[i].0),
                    )
        }),
    decreases n,
{
    if n > 0 {
        let m = (n - 1) as nat;
        lemma_first_cheapest_upto(v, m);
        lemma_cheapest_upto(v, m);
        lemma_chosen_upto(v, m);
        let ch = chosen_upto(v, m);
        let end = chosen_upto(v, n);
        if end != ch {
            let k = n - 1;
            assert(eligible(v, k));
            assert forall|i: int|
                0 <= i < k && #[trigger] eligible(v, i) && top_key(v.infos, v.responses[i].0)
                    == end.root implies end.cost < peer_cost(
                v,
                v.responses[i].0,
                top_dist(v.infos, v.responses[i].0),
            ) by {
                let x = v.responses[i].0;
                assert(!lex_less(top_key(v.infos, x)@, ch.root@));
            }
        } else if ch != first_choice(v) {
            let k = choose|k: int|
                0 <= k < m && #[trigger] eligible(v, k) && v.responses[k].0 == ch.parent && forall|
                    i: int,
                |
                    0 <= i < k && #[trigger] eligible(v, i) && top_key(v.infos, v.responses[i].0)
                        == ch.root ==> ch.cost < peer_cost(
                        v,
                        v.responses[i].0,
                        top_dist(v.infos, v.responses[i].0),
                    );
            assert(0 <= k < n && eligible(v, k));
        }
    }
}

/// Among peers that cost the same the one that answered first is chosen: every peer with the chosen
/// root that answered before the new parent costs more.
pub proof fn lemma_first_of_the_cheapest_is_chosen<T>(v: RouterView<T>)
    requires
        v.infos.len() <= u64::MAX,
        chosen(v).parent != own_parent(v),
        chosen(v).parent != v.key,
    ensures
        exists|k: int| #[trigger]
            eligible(v, k) && v.responses[k].0 == chosen(v).parent && forall|i: int, cost: u64|
                0 <= i < k && eligible(v, i) && top_of(v.infos, v.responses[i].0) == chosen(v).root@
                    && #[trigger] least_way(
                    v,
                    v.responses[i].0,
                    steps_up(v, v.responses[i].0),
                    cost,
                ) ==> chosen(v).cost < cost,
{
    let ch = chosen(v);
    lemma_first_cheapest_upto(v, v.responses.len());
    let k = choose|k: int|
        0 <= k < v.responses.len() && #[trigger] eligible(v, k) && v.responses[k].0 == ch.parent
            && forall|i: int|
            0 <= i < k && #[trigger] eligible(v, i) && top_key(v.infos, v.responses[i].0) == ch.root
                ==> ch.cost < peer_cost(
                v,
                v.responses[i].0,
                top_dist(v.infos, v.responses[i].0),
            );
    assert(eligible(v, k));
    assert forall|i: int, cost: u64|
        0 <= i < k && eligible(v, i) && top_of(v.infos, v.responses[i].0) == ch.root@
            && #[trigger] least_way(
            v,
            v.responses[i].0,
            steps_up(v, v.responses[i].0),
            cost,
        ) implies ch.cost < cost by {
        let pk = v.responses[i].0;
        lemma_cost_up(v, pk, pk);
        lemma_least_way(v, pk, steps_up(v, pk), cost, peer_cost(v, pk, top_dist(v.infos, pk)));
        lemma_top_key(v.infos, pk);
        lemma_array_view_eq(top_key(v.infos, pk), ch.root);
    }
}

proof fn lemma_announcements_only(infos: Infos, keys: Seq<PublicKey>, m: int)
    requires
        0 <= m < announcements(infos, keys).len(),
    ensures
        exists|i: int|
            0 <= i < keys.len() && get(infos, #[trigger] keys[i]) is Some && announcements(
                infos,
                keys,
            )[m] == wire_of(announce_of(get(infos, keys[i])->0, keys[i])),
    decreases keys.len(),
{
    let d = keys.drop_last();
    let rest = announcements(infos, d);
    let all = announcements(infos, keys);
    if m < rest.len() {
        lemma_announcements_only(infos, d, m);
        assert(all[m] == rest[m]);
        let i = choose|i: int|
            0 <= i < d.len() && get(infos, #[trigger] d[i]) is Some && rest[m] == wire_of(
                announce_of(get(infos, d[i])->0, d[i]),
            );
        assert(keys[i] == d[i]);
    } else {
        assert(keys[keys.len() - 1] == keys.last());
    }
}

proof fn lemma_announced_to_only(group: Seq<(PeerId, PeerEntry)>, anns: Seq<Announce>, m: int)
    requires
        0 <= m < announced_to(group, anns).len(),
    ensures
        exists|i: int, j: int|
            0 <= i < group.len() && 0 <= j < anns.len() && announced_to(group, anns)[m] == (
            ActionView::SendAnnounce { peer_id: (#[trigger] group[i]).1.id, ann: #[trigger] anns[j] }),
    decreases group.len(),
{
    let d = group.drop_last();
    let rest = announced_to(d, anns);
    let all = announced_to(group, anns);
    if m < rest.len() {
        lemma_announced_to_only(d, anns, m);
        assert(all[m] == rest[m]);
        let (i, j) = choose|i: int, j: int|
            0 <= i < d.len() && 0 <= j < anns.len() && rest[m] == (ActionView::SendAnnounce {
                peer_id: (#[trigger] d[i]).1.id,
                ann: #[trigger] anns[j],
            });
        assert(group[i] == d[i]);
        let a = anns[j];
    } else {
        let i = group.len() - 1;
        let j = m - rest.len();
        assert(group[i] == group.last());
        let a = anns[j];
    }
}

proof fn lemma_announced_upto_only<T>(v: RouterView<T>, n: nat, m: int)
    requires
        n <= v.sent.len(),
        0 <= m < announced_upto(v, n).len(),
    ensures
        exists|i: int, q: int|
            0 <= i < n && 0 <= q < announced_peer(v, i).len() && announced_upto(v, n)[m]
                == #[trigger] announced_peer(v, i)[q],
    decreases n,
{
    let rest = announced_upto(v, (n - 1) as nat);
    let all = announced_upto(v, n);
    if m < rest.len() {
        lemma_announced_upto_only(v, (n - 1) as nat, m);
        assert(all[m] == rest[m]);
        let (i, q) = choose|i: int, q: int|
            0 <= i < n - 1 && 0 <= q < announced_peer(v, i).len() && rest[m]
                == #[trigger] announced_peer(v, i)[q];
        assert(all[m] == announced_peer(v, i)[q]);
    } else {
        let i = n - 1;
        let q = m - rest.len();
        assert(all[m] == announced_peer(v, i)[q]);
    }
}

/// Nothing else is gossiped: whatever goes out is what is known of a node above us or above the peer
/// that it goes to, which that peer was not sent yet, on a connection of that peer.
pub proof fn lemma_nothing_else_is_gossiped<T>(v: RouterView<T>, m: int)
    requires
        0 <= m < announced_all(v).1.len(),
    ensures
        exists|i: int, j: int, k: PublicKey|
            {
                &&& 0 <= i < v.sent.len()
                &&& get(v.peers, v.sent[i].0) matches Some(group) && 0 <= j < group.len()
                &&& lineage(v.infos, v.key).contains(k) || lineage(v.infos, v.sent[i].0).contains(k)
                &&& !has_key(v.sent[i].1, k)
                &&& get(v.infos, k) is Some
                &&& announced_all(v).1[m] == (ActionView::SendAnnounce {
                    peer_id: (#[trigger] get(v.peers, v.sent[i].0)->0[j]).1.id,
                    ann: #[trigger] wire_of(announce_of(get(v.infos, k)->0, k)),
                })
            },
{
    let all = announced_upto(v, v.sent.len());
    lemma_announced_upto_only(v, v.sent.len(), m);
    let (i, q) = choose|i: int, q: int|
        0 <= i < v.sent.len() && 0 <= q < announced_peer(v, i).len() && all[m]
            == #[trigger] announced_peer(v, i)[q];
    let (peer, set) = v.sent[i];
    let keys = wanted(v, peer);
    let list = fresh_keys(set, keys).1;
    let anns = announcements(v.infos, list);
    let group = get(v.peers, peer)->0;
    assert(announced_peer(v, i) == announced_to(group, anns));
    lemma_announced_to_only(group, anns, q);
    let (j, a) = choose|j: int, a: int|
        0 <= j < group.len() && 0 <= a < anns.len() && announced_to(group, anns)[q] == (
        ActionView::SendAnnounce { peer_id: (#[trigger] group[j]).1.id, ann: #[trigger] anns[a] });
    lemma_announcements_only(v.infos, list, a);
    let b = choose|b: int|
        0 <= b < list.len() && get(v.infos, #[trigger] list[b]) is Some && anns[a] == wire_of(
            announce_of(get(v.infos, list[b])->0, list[b]),
        );
    let k = list[b];
    lemma_fresh_keys_list(set, keys, k);
    assert(list.contains(k));
    let x = lineage(v.infos, v.key);
    let y = lineage(v.infos, peer);
    let at = choose|at: int| 0 <= at < keys.len() && keys[at] == k;
    if at < x.len() {
        assert(x.reverse()[at] == k);
        assert(x[x.len() - 1 - at] == k);
    } else {
        assert(y.reverse()[at - x.len()] == k);
        assert(y[y.len() - 1 - (at - x.len())] == k);
    }
    assert(all[m] == (ActionView::SendAnnounce {
        peer_id: get(v.peers, v.sent[i].0)->0[j].1.id,
        ann: wire_of(announce_of(get(v.infos, k)->0, k)),
    }));
}

proof fn lemma_asked_group_only<T>(
    v: RouterView<T>,
    group: Seq<(PeerId, PeerEntry)>,
    req: SigReqState,
    now: u64,
    n: nat,
)
    requires
        n <= group.len(),
    ensures
        ({
            let (u, sent) = asked_group(v, group, req, now, n);
            &&& sent.len() == n
            &&& forall|j: int|
                0 <= j < n ==> #[trigger] sent[j] == (ActionView::SendSigReq {
                    peer_id: group[j].0,
                    req: SigReq { seq: req.seq, nonce: req.nonce },
                })
        }),
    decreases n,
{
    if n > 0 {
        lemma_asked_group_only(v, group, req, now, (n - 1) as nat);
    }
}

proof fn lemma_asked_upto_only<T>(v: RouterView<T>, nonces: Seq<u64>, now: u64, n: nat, m: int)
    requires
        n <= v.peers.len(),
        0 <= m < asked_upto(v, nonces, now, n).1.len(),
    ensures
        exists|i: int, j: int|
            0 <= i < n && 0 <= j < v.peers[i].1.len() && asked_upto(v, nonces, now, n).1[m] == (
            ActionView::SendSigReq {
                peer_id: (#[trigger] v.peers[i].1[j]).0,
                req: SigReq { seq: next_req(v, nonces[i]).seq, nonce: nonces[i] },
            }),
    decreases n,
{
    let p = (n - 1) as nat;
    let (u, sent) = asked_upto(v, nonces, now, p);
    let (pk, group) = v.peers[p as int];
    let req = next_req(v, nonces[p as int]);
    let w = RouterView { requests: put(u.requests, pk, req), ..u };
    lemma_asked_group_only(w, group, req, now, group.len());
    let all = asked_upto(v, nonces, now, n).1;
    if m < sent.len() {
        lemma_asked_upto_only(v, nonces, now, p, m);
        assert(all[m] == sent[m]);
        let (i, j) = choose|i: int, j: int|
            0 <= i < p && 0 <= j < v.peers[i].1.len() && sent[m] == (ActionView::SendSigReq {
                peer_id: (#[trigger] v.peers[i].1[j]).0,
                req: SigReq { seq: next_req(v, nonces[i]).seq, nonce: nonces[i] },
            });
        assert(all[m] == (ActionView::SendSigReq {
            peer_id: v.peers[i].1[j].0,
            req: SigReq { seq: next_req(v, nonces[i]).seq, nonce: nonces[i] },
        }));
    } else {
        let j = m - sent.len();
        assert(all[m] == (ActionView::SendSigReq {
            peer_id: v.peers[p as int].1[j].0,
            req: SigReq { seq: req.seq, nonce: req.nonce },
        }));
    }
}

/// Nobody else is asked, and nothing else is sent when everyone is asked anew: whatever goes out is a
/// request, on a connection of a peer, for the number after our own and with the nonce of that peer.
pub proof fn lemma_nobody_else_is_asked<T>(v: RouterView<T>, nonces: Seq<u64>, now: u64, m: int)
    requires
        own_seq(v) < u64::MAX,
        0 <= m < asked(v, nonces, now).1.len(),
    ensures
        exists|i: int, j: int|
            0 <= i < v.peers.len() && 0 <= j < v.peers[i].1.len() && asked(v, nonces, now).1[m] == (
            ActionView::SendSigReq {
                peer_id: (#[trigger] v.peers[i].1[j]).0,
                req: SigReq { seq: (own_seq(v) + 1) as u64, nonce: nonces[i] },
            }),
{
    let cleared = RouterView {
        requests: Seq::empty(),
        responses: Seq::empty(),
        res_seqs: Seq::empty(),
        res_seq_ctr: 0,
        ..v
    };
    lemma_asked_upto_only(cleared, nonces, now, v.peers.len(), m);
}

/// A filter goes nowhere else: what goes out is a filter of the list, on a connection of the peer that
/// it is for.
pub proof fn lemma_filters_go_nowhere_else(
    peers: PeersView,
    list: Seq<(PublicKey, Set<int>)>,
    m: int,
)
    requires
        0 <= m < blooms_sent(peers, list).len(),
    ensures
        exists|i: int, j: int|
            {
                &&& 0 <= i < list.len()
                &&& get(peers, list[i].0) matches Some(group) && 0 <= j < group.len()
                &&& blooms_sent(peers, list)[m] == (ActionView::SendBloom {
                    peer_id: (#[trigger] get(peers, list[i].0)->0[j]).1.id,
                    bloom: list[i].1,
                })
            },
    decreases list.len(),
{
    let d = list.drop_last();
    let rest = blooms_sent(peers, d);
    let all = blooms_sent(peers, list);
    if m < rest.len() {
        lemma_filters_go_nowhere_else(peers, d, m);
        assert(all[m] == rest[m]);
        let (i, j) = choose|i: int, j: int|
            {
                &&& 0 <= i < d.len()
                &&& get(peers, d[i].0) matches Some(group) && 0 <= j < group.len()
                &&& rest[m] == (ActionView::SendBloom {
                    peer_id: (#[trigger] get(peers, d[i].0)->0[j]).1.id,
                    bloom: d[i].1,
                })
            };
        assert(d[i] == list[i]);
        assert(all[m] == (ActionView::SendBloom {
            peer_id: get(peers, list[i].0)->0[j].1.id,
            bloom: list[i].1,
        }));
    } else {
        let i = list.len() - 1;
        let j = m - rest.len();
        assert(list[i] == list.last());
        assert(all[m] == (ActionView::SendBloom {
            peer_id: get(peers, list[i].0)->0[j].1.id,
            bloom: list[i].1,
        }));
    }
}

} // verus!
