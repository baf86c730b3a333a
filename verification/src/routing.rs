//! Greedy routing: which connection a message goes out on.
use vstd::prelude::*;
use crate::blooms::KeyTransform;
use crate::bytes::{key_eq, PublicKey};
use crate::router::{
    group_wf, router_wf, PeerEntry, PeerId, Router, RouterView, UNKNOWN_LATENCY,
};
use crate::table::{get, lemma_put, KeyTable};
use crate::tree::{
    coords, counted, dists_of, get_root_and_dists, get_root_and_path, path_dist, root_of, top_of,
    tree_dist,
};
use crate::wire::PeerPort;

verus! {

// ---------------------------------------------------------------------------
// Choosing the next hop
// ---------------------------------------------------------------------------

/// How far the node `key` is from the end of `path`.
pub open spec fn dist_to<T>(v: RouterView<T>, path: Seq<PeerPort>, key: PublicKey) -> u64 {
    counted(tree_dist(coords(v.infos, key), path))
}

/// What a connection costs: its latency in milliseconds, at least one.
pub open spec fn cost_of<T>(v: RouterView<T>, id: PeerId) -> u64 {
    let lag = match get(v.lags, id) {
        Some(l) => l,
        None => UNKNOWN_LATENCY,
    };
    let c = lag / 1_000_000;
    if c == 0 {
        1
    } else {
        c
    }
}

/// A product as it is counted: up to the largest number there is.
pub open spec fn product(a: u64, b: u64) -> u64 {
    counted((a * b) as nat)
}

/// Multiplies up to the largest number there is.
pub(crate) fn saturating_product(a: u64, b: u64) -> (r: u64)
    ensures
        r == product(a, b),
{
    assert(a * b >= 0) by (nonlinear_arith)
        requires
            a >= 0,
            b >= 0,
    ;
    match a.checked_mul(b) {
        Some(p) => p,
        None => u64::MAX,
    }
}

/// Whether connection `p` is preferred to `q` on the way to the end of `path`. Between two
/// connections to one peer the lower priority number decides. Otherwise cost times distance
/// decides, then distance, then cost, then which connection is older.
pub open spec fn prefers<T>(
    v: RouterView<T>,
    path: Seq<PeerPort>,
    p: PeerEntry,
    q: PeerEntry,
) -> bool {
    let (pd, qd) = (dist_to(v, path, p.key), dist_to(v, path, q.key));
    let (pc, qc) = (cost_of(v, p.id), cost_of(v, q.id));
    if p.key == q.key && p.prio != q.prio {
        p.prio < q.prio
    } else if product(pc, pd) != product(qc, qd) {
        product(pc, pd) < product(qc, qd)
    } else if pd != qd {
        pd < qd
    } else if pc != qc {
        pc < qc
    } else {
        p.order < q.order
    }
}

/// The connections in a group.
pub open spec fn entries(group: Seq<(PeerId, PeerEntry)>) -> Seq<PeerEntry> {
    Seq::new(group.len(), |i: int| group[i].1)
}

/// The connections to the first `n` peers that are closer than `limit` to the end of `path`.
pub open spec fn closer<T>(v: RouterView<T>, path: Seq<PeerPort>, limit: u64, n: nat) -> Seq<
    PeerEntry,
>
    decreases n,
{
    if n == 0 {
        Seq::empty()
    } else {
        let rest = closer(v, path, limit, (n - 1) as nat);
        let (k, group) = v.peers[n - 1];
        if dist_to(v, path, k) < limit {
            rest + entries(group)
        } else {
            rest
        }
    }
}

/// The connection that is left when each of `c` in turn takes the place of the one before if
/// it is preferred to it.
pub open spec fn best_of<T>(v: RouterView<T>, path: Seq<PeerPort>, c: Seq<PeerEntry>) -> Option<
    PeerEntry,
>
    decreases c.len(),
{
    if c.len() == 0 {
        None
    } else {
        match best_of(v, path, c.drop_last()) {
            None => Some(c.last()),
            Some(b) => if prefers(v, path, c.last(), b) {
                Some(c.last())
            } else {
                Some(b)
            },
        }
    }
}

/// The connection that a message to the end of `path` goes out on: none if we are no closer
/// than the watermark that it carries, or if no peer is closer than we are.
pub open spec fn next_entry<T>(v: RouterView<T>, path: Seq<PeerPort>, watermark: u64) -> Option<
    PeerEntry,
> {
    let d = dist_to(v, path, v.key);
    if d >= watermark {
        None
    } else {
        best_of(v, path, closer(v, path, d, v.peers.len()))
    }
}

/// The connection that a message to the end of `path` goes out on, by its id.
pub open spec fn next_hop<T>(v: RouterView<T>, path: Seq<PeerPort>, watermark: u64) -> Option<
    PeerId,
> {
    match next_entry(v, path, watermark) {
        Some(e) => Some(e.id),
        None => None,
    }
}

/// The watermark that a message carries after it passed us: our own distance.
pub open spec fn lowered<T>(v: RouterView<T>, path: Seq<PeerPort>, watermark: u64) -> u64 {
    let d = dist_to(v, path, v.key);
    if d >= watermark {
        watermark
    } else {
        d
    }
}

proof fn lemma_closer<T>(v: RouterView<T>, path: Seq<PeerPort>, limit: u64, n: nat)
    requires
        router_wf(v),
        n <= v.peers.len(),
    ensures
        forall|i: int|
            0 <= i < closer(v, path, limit, n).len() ==> {
                let e = #[trigger] closer(v, path, limit, n)[i];
                &&& dist_to(v, path, e.key) < limit
                &&& get(v.peers, e.key) matches Some(g) && get(g, e.id) == Some(e)
            },
    decreases n,
{
    if n > 0 {
        lemma_closer(v, path, limit, (n - 1) as nat);
        let rest = closer(v, path, limit, (n - 1) as nat);
        let all = closer(v, path, limit, n);
        let (k, group) = v.peers[n - 1];
        assert(group_wf(v.peers[n - 1].0, v.peers[n - 1].1));
        crate::table::lemma_entry(v.peers, n - 1);
        assert forall|i: int| 0 <= i < all.len() implies {
            let e = #[trigger] all[i];
            &&& dist_to(v, path, e.key) < limit
            &&& get(v.peers, e.key) matches Some(g) && get(g, e.id) == Some(e)
        } by {
            if i < rest.len() {
                assert(all[i] == rest[i]);
            } else {
                let j = i - rest.len();
                assert(all[i] == group[j].1);
                crate::table::lemma_entry(group, j);
            }
        }
    }
}

proof fn lemma_best_is_one<T>(v: RouterView<T>, path: Seq<PeerPort>, c: Seq<PeerEntry>)
    ensures
        c.len() > 0 <==> best_of(v, path, c) is Some,
        best_of(v, path, c) matches Some(e) ==> c.contains(e),
    decreases c.len(),
{
    if c.len() > 0 {
        let d = c.drop_last();
        lemma_best_is_one(v, path, d);
        assert(c[c.len() - 1] == c.last());
        match best_of(v, path, d) {
            Some(b) => {
                let i = choose|i: int| 0 <= i < d.len() && d[i] == b;
                assert(c[i] == b);
            },
            None => {},
        }
    }
}

/// Greedy routing makes progress: a message goes out only to a peer that is strictly closer to
/// its end than we are, and the watermark it then carries is strictly lower than before. So it
/// passes no more nodes than the first watermark counts, and no node that sees the same tree
/// refuses it for its watermark.
pub proof fn lemma_forwarding_makes_progress<T>(
    v: RouterView<T>,
    path: Seq<PeerPort>,
    watermark: u64,
)
    requires
        router_wf(v),
        next_entry(v, path, watermark) is Some,
    ensures
        ({
            let e = next_entry(v, path, watermark)->0;
            &&& lowered(v, path, watermark) < watermark
            &&& dist_to(v, path, e.key) < lowered(v, path, watermark)
            &&& get(v.peers, e.key) matches Some(g) && get(g, e.id) == Some(e)
        }),
{
    let d = dist_to(v, path, v.key);
    let c = closer(v, path, d, v.peers.len());
    lemma_closer(v, path, d, v.peers.len());
    lemma_best_is_one(v, path, c);
    let e = next_entry(v, path, watermark)->0;
    let i = choose|i: int| 0 <= i < c.len() && c[i] == e;
    assert(c[i] == e);
}

proof fn lemma_closer_grows<T>(v: RouterView<T>, path: Seq<PeerPort>, limit: u64, m: nat, n: nat)
    requires
        m <= n,
    ensures
        closer(v, path, limit, m).len() <= closer(v, path, limit, n).len(),
    decreases n,
{
    if m < n {
        lemma_closer_grows(v, path, limit, m, (n - 1) as nat);
    }
}

/// A message is never stuck while a neighbour is closer: if some connected peer is closer to
/// the end of the path than we are, and we are below the watermark, it goes out.
pub proof fn lemma_forwards_when_closer<T>(
    v: RouterView<T>,
    path: Seq<PeerPort>,
    watermark: u64,
    i: int,
)
    requires
        0 <= i < v.peers.len(),
        v.peers[i].1.len() > 0,
        dist_to(v, path, v.peers[i].0) < dist_to(v, path, v.key) < watermark,
    ensures
        next_hop(v, path, watermark) is Some,
{
    let d = dist_to(v, path, v.key);
    lemma_closer_grows(v, path, d, (i + 1) as nat, v.peers.len());
    let (k, group) = v.peers[(i + 1) as nat - 1];
    assert(closer(v, path, d, (i + 1) as nat) == closer(v, path, d, i as nat) + entries(group));
    lemma_best_is_one(v, path, closer(v, path, d, v.peers.len()));
}

/// Whether a connection leads to a peer that is closer to the end of `path` than we are.
pub open spec fn leads_closer<T>(v: RouterView<T>, path: Seq<PeerPort>, e: PeerEntry) -> bool {
    exists|i: int, j: int|
        0 <= i < v.peers.len() && 0 <= j < v.peers[i].1.len() && (#[trigger] v.peers[i].1[j]).1 == e
            && dist_to(v, path, v.peers[i].0) < dist_to(v, path, v.key)
}

proof fn lemma_closer_has<T>(v: RouterView<T>, path: Seq<PeerPort>, limit: u64, n: nat, i: int, j: int)
    requires
        0 <= i < n <= v.peers.len(),
        0 <= j < v.peers[i].1.len(),
        dist_to(v, path, v.peers[i].0) < limit,
    ensures
        closer(v, path, limit, n).contains(v.peers[i].1[j].1),
    decreases n,
{
    let e = v.peers[i].1[j].1;
    let rest = closer(v, path, limit, (n - 1) as nat);
    let all = closer(v, path, limit, n);
    if i == n - 1 {
        assert(entries(v.peers[i].1)[j] == e);
        assert(all[rest.len() + j] == e);
    } else {
        lemma_closer_has(v, path, limit, (n - 1) as nat, i, j);
        let k = choose|k: int| 0 <= k < rest.len() && rest[k] == e;
        assert(all[k] == e);
    }
}

/// Whether a connection is no worse than another to the end of `path`: its cost times the distance
/// of its peer is less, or the same and its peer is closer, or that is the same too and it costs
/// less, or that is the same too and it is no younger.
pub open spec fn no_worse<T>(
    v: RouterView<T>,
    path: Seq<PeerPort>,
    e: PeerEntry,
    f: PeerEntry,
) -> bool {
    let (ed, fd) = (dist_to(v, path, e.key), dist_to(v, path, f.key));
    let (ec, fc) = (cost_of(v, e.id), cost_of(v, f.id));
    let (ep, fp) = (counted((ec * ed) as nat), counted((fc * fd) as nat));
    ep < fp || (ep == fp && (ed < fd || (ed == fd && (ec < fc || (ec == fc && e.order <= f.order)))))
}

/// Whether two connections to one peer have one priority.
pub open spec fn same_prio(e: PeerEntry, f: PeerEntry) -> bool {
    e.key == f.key ==> e.prio == f.prio
}

proof fn lemma_best_beats_all<T>(v: RouterView<T>, path: Seq<PeerPort>, c: Seq<PeerEntry>, i: int)
    requires
        0 <= i < c.len(),
        forall|i: int, j: int|
            0 <= i < c.len() && 0 <= j < c.len() ==> same_prio(#[trigger] c[i], #[trigger] c[j]),
    ensures
        best_of(v, path, c) matches Some(e) && no_worse(v, path, e, c[i]),
    decreases c.len(),
{
    let d = c.drop_last();
    let last = c.last();
    assert(c[c.len() - 1] == last);
    lemma_best_is_one(v, path, d);
    if let Some(b) = best_of(v, path, d) {
        let k = choose|k: int| 0 <= k < d.len() && d[k] == b;
        assert(c[k] == b);
        assert(same_prio(c[c.len() - 1], c[k]));
        if i < d.len() {
            assert forall|i: int, j: int|
                0 <= i < d.len() && 0 <= j < d.len() implies same_prio(
                #[trigger] d[i],
                #[trigger] d[j],
            ) by {
                assert(same_prio(c[i], c[j]));
            }
            lemma_best_beats_all(v, path, d, i);
            assert(d[i] == c[i]);
        }
    }
}

/// Greedy routing takes the best way: where connections to one peer have one priority, as they have
/// where each peer has one connection, no connection to a peer that is closer than we are has a
/// lower product of cost and distance than the one that a message goes out on; among equals the
/// closer peer, the cheaper connection and the older one come first. A peer at the very end of
/// the path is never passed over.
pub proof fn lemma_best_way_is_taken<T>(
    v: RouterView<T>,
    path: Seq<PeerPort>,
    watermark: u64,
    f: PeerEntry,
)
    requires
        router_wf(v),
        dist_to(v, path, v.key) < watermark,
        leads_closer(v, path, f),
        forall|e: PeerEntry, g: PeerEntry|
            #[trigger] leads_closer(v, path, e) && #[trigger] leads_closer(v, path, g) ==> same_prio(
                e,
                g,
            ),
    ensures
        next_entry(v, path, watermark) matches Some(e) && leads_closer(v, path, e) && no_worse(
            v,
            path,
            e,
            f,
        ),
        next_hop(v, path, watermark) == Some(next_entry(v, path, watermark)->0.id),
        dist_to(v, path, f.key) == 0 ==> dist_to(
            v,
            path,
            next_entry(v, path, watermark)->0.key,
        ) == 0,
{
    let d = dist_to(v, path, v.key);
    let c = closer(v, path, d, v.peers.len());
    lemma_closer(v, path, d, v.peers.len());
    assert forall|k: int| 0 <= k < c.len() implies leads_closer(v, path, #[trigger] c[k]) by {
        lemma_closer_comes(v, path, d, v.peers.len(), k);
    }
    let (i, j) = choose|i: int, j: int|
        0 <= i < v.peers.len() && 0 <= j < v.peers[i].1.len() && (#[trigger] v.peers[i].1[j]).1 == f
            && dist_to(v, path, v.peers[i].0) < d;
    lemma_closer_has(v, path, d, v.peers.len(), i, j);
    let k = choose|k: int| 0 <= k < c.len() && c[k] == f;
    assert forall|i: int, j: int| 0 <= i < c.len() && 0 <= j < c.len() implies same_prio(
        #[trigger] c[i],
        #[trigger] c[j],
    ) by {
        assert(leads_closer(v, path, c[i]) && leads_closer(v, path, c[j]));
    }
    lemma_best_beats_all(v, path, c, k);
    lemma_best_is_one(v, path, c);
    let e = next_entry(v, path, watermark)->0;
    if dist_to(v, path, f.key) == 0 {
        let (ec, ed) = (cost_of(v, e.id), dist_to(v, path, e.key));
        assert(cost_of(v, f.id) * 0 == 0);
        assert(ed > 0 ==> ec * ed > 0) by (nonlinear_arith)
            requires
                ec >= 1,
                ed >= 0,
        ;
    }
}

proof fn lemma_closer_comes<T>(v: RouterView<T>, path: Seq<PeerPort>, limit: u64, n: nat, k: int)
    requires
        n <= v.peers.len(),
        0 <= k < closer(v, path, limit, n).len(),
    ensures
        exists|i: int, j: int|
            0 <= i < n && 0 <= j < v.peers[i].1.len() && (#[trigger] v.peers[i].1[j]).1 == closer(
                v,
                path,
                limit,
                n,
            )[k] && dist_to(v, path, v.peers[i].0) < limit,
    decreases n,
{
    let rest = closer(v, path, limit, (n - 1) as nat);
    let all = closer(v, path, limit, n);
    if k < rest.len() {
        lemma_closer_comes(v, path, limit, (n - 1) as nat, k);
        assert(all[k] == rest[k]);
        let (i, j) = choose|i: int, j: int|
            0 <= i < n - 1 && 0 <= j < v.peers[i].1.len() && (#[trigger] v.peers[i].1[j]).1 == rest[k]
                && dist_to(v, path, v.peers[i].0) < limit;
        assert(0 <= i < n && v.peers[i].1[j].1 == all[k]);
    } else {
        let j = k - rest.len();
        assert(v.peers[n - 1].1[j].1 == all[k]);
    }
}

proof fn lemma_best_of_one_peer<T>(v: RouterView<T>, path: Seq<PeerPort>, c: Seq<PeerEntry>, i: int)
    requires
        0 <= i < c.len(),
        forall|i: int| 0 <= i < c.len() ==> (#[trigger] c[i]).key == c[0].key,
    ensures
        best_of(v, path, c) matches Some(e) && e.prio <= c[i].prio,
    decreases c.len(),
{
    let d = c.drop_last();
    assert(c[c.len() - 1] == c.last());
    lemma_best_is_one(v, path, d);
    if let Some(b) = best_of(v, path, d) {
        let k = choose|k: int| 0 <= k < d.len() && d[k] == b;
        assert(c[k] == b);
        if i < d.len() {
            assert forall|i: int| 0 <= i < d.len() implies (#[trigger] d[i]).key == d[0].key by {
                assert(c[i].key == c[0].key);
                assert(d[i] == c[i] && d[0] == c[0]);
            }
            lemma_best_of_one_peer(v, path, d, i);
            assert(d[i] == c[i]);
        }
    }
}

/// Between the connections to the only peer that is closer than we are, the lowest priority number
/// decides, whatever they cost.
pub proof fn lemma_priority_decides<T>(
    v: RouterView<T>,
    path: Seq<PeerPort>,
    watermark: u64,
    f: PeerEntry,
)
    requires
        router_wf(v),
        dist_to(v, path, v.key) < watermark,
        leads_closer(v, path, f),
        forall|e: PeerEntry| #[trigger] leads_closer(v, path, e) ==> e.key == f.key,
    ensures
        next_entry(v, path, watermark) matches Some(e) && leads_closer(v, path, e) && e.prio <= f.prio,
{
    let d = dist_to(v, path, v.key);
    let c = closer(v, path, d, v.peers.len());
    assert forall|k: int| 0 <= k < c.len() implies leads_closer(v, path, #[trigger] c[k]) by {
        lemma_closer_comes(v, path, d, v.peers.len(), k);
    }
    let (i, j) = choose|i: int, j: int|
        0 <= i < v.peers.len() && 0 <= j < v.peers[i].1.len() && (#[trigger] v.peers[i].1[j]).1 == f
            && dist_to(v, path, v.peers[i].0) < d;
    lemma_closer_has(v, path, d, v.peers.len(), i, j);
    let k = choose|k: int| 0 <= k < c.len() && c[k] == f;
    lemma_best_of_one_peer(v, path, c, k);
    lemma_best_is_one(v, path, c);
}

/// A connection costs a whole number of milliseconds, rounded down, and never nothing. One whose
/// latency is not known yet counts as five seconds.
pub proof fn lemma_cost_is_the_latency<T>(v: RouterView<T>, id: PeerId)
    ensures
        ({
            let c = cost_of(v, id) as int;
            match get(v.lags, id) {
                Some(lag) => if lag < 2_000_000 {
                    c == 1
                } else {
                    1_000_000 * c <= lag < 1_000_000 * (c + 1)
                },
                None => c == 5_000,
            }
        }),
{
}

/// A message that we refuse keeps its watermark; any other carries on with our own distance, so that
/// no node further away takes it.
pub proof fn lemma_watermark_is_our_distance<T>(
    v: RouterView<T>,
    path: Seq<PeerPort>,
    watermark: u64,
)
    ensures
        lowered(v, path, watermark) <= watermark,
        lowered(v, path, watermark) <= dist_to(v, path, v.key),
        lowered(v, path, watermark) == watermark || lowered(v, path, watermark) == dist_to(
            v,
            path,
            v.key,
        ),
        next_entry(v, path, watermark) is Some ==> dist_to(v, path, v.key) < watermark,
{
}

impl<T: KeyTransform> Router<T> {
    /// The node at which the ancestry of `dest` ends, and how many steps up each
    /// ancestor lies.
    pub fn get_root_and_dists(&self, dest: &PublicKey) -> (r: (PublicKey, KeyTable<PublicKey, u64>))
        ensures
            r.0@ == top_of(self@.infos, *dest),
            r.1@ == dists_of(self@.infos, *dest),
            r.1.wf(),
    {
        get_root_and_dists(&self.infos, dest)
    }

    /// The root of the tree that `dest` stands in, and the ports that lead from it to
    /// `dest`.
    pub fn get_root_and_path(&self, dest: &PublicKey) -> (r: (PublicKey, Vec<PeerPort>))
        ensures
            r.0 == root_of(self@.infos, *dest),
            r.1@ == coords(self@.infos, *dest),
            r.1@.len() <= self@.infos.len(),
    {
        get_root_and_path(&self.infos, dest)
    }

    /// Gets the distance between a path and a node in tree space.
    pub fn get_dist(&mut self, dest_path: &[PeerPort], key: &PublicKey) -> (r: u64)
        requires
            old(self).wf(),
        ensures
            final(self).wf(),
            final(self)@ == old(self)@,
            r == dist_to(old(self)@, dest_path@, *key),
    {
        match self.cache.get(key) {
            Some(cached) => {
                return path_dist(cached, dest_path);
            },
            None => {},
        }
        let (_, path) = self.get_root_and_path(key);
        let d: u64 = path_dist(&path, dest_path);
        proof {
            lemma_put(self.cache@, *key, path);
        }
        self.cache.insert(*key, path);
        d
    }

    /// What a connection costs.
    pub fn get_cost(&self, peer_id: PeerId) -> (r: u64)
        ensures
            r == cost_of(self@, peer_id),
    {
        let lag: u64 = match self.lags.get(&peer_id) {
            Some(l) => *l,
            None => UNKNOWN_LATENCY,
        };
        let c: u64 = lag / 1_000_000;
        if c == 0 {
            1
        } else {
            c
        }
    }

    /// The connections to peers that are closer than `limit` to the end of `path`.
    fn candidates(&mut self, path: &[PeerPort], limit: u64) -> (r: Vec<PeerEntry>)
        requires
            old(self).wf(),
        ensures
            final(self).wf(),
            final(self)@ == old(self)@,
            r@ == closer(old(self)@, path@, limit, old(self)@.peers.len()),
    {
        let ghost v = self@;
        let mut r: Vec<PeerEntry> = Vec::new();
        let mut i: usize = 0;
        while i < self.peers.len()
            invariant
                self.wf(),
                self@ == v,
                v == old(self)@,
                i <= self.peers@.len(),
                r@ == closer(v, path@, limit, i as nat),
            decreases self.peers@.len() - i,
        {
            let k = self.peers.key_at(i);
            let d: u64 = self.get_dist(path, &k);
            assert(v.peers.len() == self.peers@.len());
            assert(v.peers[i as int].0 == k);
            if d < limit {
                let group = self.peers.value_at(i);
                assert(v.peers[i as int].1 == group@);
                let ghost start = r@;
                let mut j: usize = 0;
                while j < group.len()
                    invariant
                        j <= group@.len(),
                        r@ == start + entries(group@).take(j as int),
                    decreases group@.len() - j,
                {
                    r.push(*group.value_at(j));
                    assert(r@ =~= start + entries(group@).take(j + 1));
                    j += 1;
                }
                assert(entries(group@).take(j as int) =~= entries(group@));
            }
            i += 1;
        }
        r
    }

    /// Whether connection `p` is preferred to `q` on the way to the end of `path`.
    fn is_preferred(&mut self, path: &[PeerPort], p: &PeerEntry, q: &PeerEntry) -> (r: bool)
        requires
            old(self).wf(),
        ensures
            final(self).wf(),
            final(self)@ == old(self)@,
            r == prefers(old(self)@, path@, *p, *q),
    {
        let pd: u64 = self.get_dist(path, &p.key);
        let qd: u64 = self.get_dist(path, &q.key);
        let pc: u64 = self.get_cost(p.id);
        let qc: u64 = self.get_cost(q.id);
        let pp: u64 = saturating_product(pc, pd);
        let qp: u64 = saturating_product(qc, qd);
        if key_eq(&p.key, &q.key) && p.prio != q.prio {
            p.prio < q.prio
        } else if pp != qp {
            pp < qp
        } else if pd != qd {
            pd < qd
        } else if pc != qc {
            pc < qc
        } else {
            p.order < q.order
        }
    }

    /// Greedy routing lookup: finds the best next-hop peer, and lowers the watermark to our
    /// own distance.
    pub fn lookup(&mut self, path: &[PeerPort], watermark: &mut u64) -> (r: Option<PeerId>)
        requires
            old(self).wf(),
        ensures
            final(self).wf(),
            final(self)@ == old(self)@,
            r == next_hop(old(self)@, path@, *old(watermark)),
            *final(watermark) == lowered(old(self)@, path@, *old(watermark)),
    {
        let ghost v = self@;
        let self_key = self.crypto.public_key;
        let self_dist: u64 = self.get_dist(path, &self_key);
        if self_dist >= *watermark {
            return None;
        }
        *watermark = self_dist;
        let c = self.candidates(path, self_dist);
        let mut best: Option<PeerEntry> = None;
        let mut i: usize = 0;
        assert(c@.take(0) =~= Seq::empty());
        while i < c.len()
            invariant
                self.wf(),
                self@ == v,
                i <= c@.len(),
                best == best_of(v, path@, c@.take(i as int)),
            decreases c@.len() - i,
        {
            let p = c[i];
            assert(c@.take(i + 1).drop_last() =~= c@.take(i as int));
            match best {
                None => {
                    best = Some(p);
                },
                Some(b) => {
                    if self.is_preferred(path, &p, &b) {
                        best = Some(p);
                    }
                },
            }
            i += 1;
        }
        assert(c@.take(i as int) =~= c@);
        match best {
            Some(p) => Some(p.id),
            None => None,
        }
    }
}

/// Whatever the priorities, none of the connections that come after the one that is taken is better
/// than it: one to the same node has no lower priority number, and one to another node, or with the
/// same number, is no better by cost times distance, by distance, by cost and by age.
pub proof fn lemma_nothing_later_is_better<T>(
    v: RouterView<T>,
    path: Seq<PeerPort>,
    watermark: u64,
)
    requires
        next_entry(v, path, watermark) is Some,
    ensures
        ({
            let c = closer(v, path, dist_to(v, path, v.key), v.peers.len());
            let e = next_entry(v, path, watermark)->0;
            exists|p: int|
                0 <= p < c.len() && #[trigger] c[p] == e && forall|q: int|
                    p < q < c.len() ==> if c[p].key == (#[trigger] c[q]).key && c[p].prio
                        != c[q].prio {
                        c[p].prio < c[q].prio
                    } else {
                        no_worse(v, path, c[p], c[q])
                    }
        }),
{
    lemma_best_is_not_beaten_later(
        v,
        path,
        closer(v, path, dist_to(v, path, v.key), v.peers.len()),
    );
}

proof fn lemma_best_is_not_beaten_later<T>(
    v: RouterView<T>,
    path: Seq<PeerPort>,
    c: Seq<PeerEntry>,
)
    requires
        best_of(v, path, c) is Some,
    ensures
        exists|p: int|
            0 <= p < c.len() && #[trigger] c[p] == best_of(v, path, c)->0 && forall|q: int|
                p < q < c.len() ==> if c[p].key == (#[trigger] c[q]).key && c[p].prio != c[q].prio {
                    c[p].prio < c[q].prio
                } else {
                    no_worse(v, path, c[p], c[q])
                },
    decreases c.len(),
{
    let d = c.drop_last();
    let n = c.len() - 1;
    assert(c[n] == c.last());
    if best_of(v, path, c) == best_of(v, path, d) && d.len() > 0 && !prefers(
        v,
        path,
        c.last(),
        best_of(v, path, d)->0,
    ) {
        lemma_best_is_not_beaten_later(v, path, d);
        let p = choose|p: int|
            0 <= p < d.len() && #[trigger] d[p] == best_of(v, path, d)->0 && forall|q: int|
                p < q < d.len() ==> if d[p].key == (#[trigger] d[q]).key && d[p].prio != d[q].prio {
                    d[p].prio < d[q].prio
                } else {
                    no_worse(v, path, d[p], d[q])
                };
        assert(c[p] == d[p]);
        assert forall|q: int| p < q < c.len() implies if c[p].key == (#[trigger] c[q]).key
            && c[p].prio != c[q].prio {
            c[p].prio < c[q].prio
        } else {
            no_worse(v, path, c[p], c[q])
        } by {
            if q < n {
                assert(c[q] == d[q]);
            }
        }
    } else {
        assert(c[n] == best_of(v, path, c)->0);
    }
}

} // verus!
