//! Peer connection management: which connections there are, their ports and traffic queues.
use vstd::prelude::*;
use crate::bytes::PublicKey;
use crate::router::{PeerEntry, PeerId};
use crate::table::{
    del, distinct, find, get, has_key, lemma_del, lemma_entry, lemma_find, lemma_mapped_del,
    lemma_mapped_find, lemma_mapped_put, lemma_put, mapped, put, KeyTable,
};
use crate::traffic::{
    drained, packets_view, queue_pushed, queue_wf, relieved, wire_len, InfoView, PacketQueue,
    QueueView, TrafficPacket,
};
use crate::wire::PeerPort;

verus! {

/// A peer connection and the traffic that waits to be written to it.
pub struct PeerHandle {
    pub id: PeerId,
    pub key: PublicKey,
    pub port: PeerPort,
    pub prio: u8,
    pub order: u64,
    pub traffic_queue: PacketQueue,
}

/// What a [`PeerHandle`] holds.
pub struct HandleView {
    pub entry: PeerEntry,
    pub queue: QueueView,
}

impl View for PeerHandle {
    type V = HandleView;

    open spec fn view(&self) -> HandleView {
        HandleView {
            entry: PeerEntry {
                id: self.id,
                key: self.key,
                port: self.port,
                prio: self.prio,
                order: self.order,
            },
            queue: self.traffic_queue@,
        }
    }
}

impl PeerHandle {
    /// What the router needs to know of the connection.
    pub fn to_entry(&self) -> (r: PeerEntry)
        ensures
            r == self@.entry,
    {
        PeerEntry {
            id: self.id,
            key: self.key,
            port: self.port,
            prio: self.prio,
            order: self.order,
        }
    }
}

/// The connections of one peer.
pub type GroupView = Seq<(PeerId, HandleView)>;

/// What a [`Peers`] holds.
pub struct PeersView {
    pub next_id: PeerId,
    pub used_ports: Seq<(PeerPort, PublicKey)>,
    pub handles: Seq<(PublicKey, GroupView)>,
    pub order: u64,
}

/// The view of one connection.
pub open spec fn handle_view() -> spec_fn(PeerHandle) -> HandleView {
    |h: PeerHandle| h@
}

/// The view of the connections of one peer.
pub open spec fn handles_view() -> spec_fn(KeyTable<PeerId, PeerHandle>) -> GroupView {
    |t: KeyTable<PeerId, PeerHandle>| mapped(t@, handle_view())
}

/// Manages all peer connections.
pub struct Peers {
    pub next_id: PeerId,
    /// Ports allocated to peer keys (port to key).
    pub used_ports: KeyTable<PeerPort, PublicKey>,
    /// Active connections, grouped by public key.
    pub handles: KeyTable<PublicKey, KeyTable<PeerId, PeerHandle>>,
    /// Connection order counter.
    pub order: u64,
}

impl View for Peers {
    type V = PeersView;

    open spec fn view(&self) -> PeersView {
        PeersView {
            next_id: self.next_id,
            used_ports: self.used_ports@,
            handles: mapped(self.handles@, handles_view()),
            order: self.order,
        }
    }
}

/// The connections of a peer: at least one, all under their ids, all with its key and with one
/// port, which is allocated to it.
pub open spec fn peer_group_wf(v: PeersView, key: PublicKey, group: GroupView) -> bool {
    &&& group.len() > 0
    &&& distinct(group)
    &&& get(v.used_ports, group[0].1.entry.port) == Some(key)
    &&& forall|j: int|
        0 <= j < group.len() ==> {
            let h = (#[trigger] group[j]).1;
            &&& h.entry.id == group[j].0
            &&& h.entry.id < v.next_id
            &&& h.entry.key == key
            &&& h.entry.port == group[0].1.entry.port
            &&& queue_wf(h.queue)
        }
}

/// The invariant: every peer has its own port, none has port zero, every allocated port
/// belongs to a connected peer, and an id belongs to one connection.
pub open spec fn peers_wf(v: PeersView) -> bool {
    &&& v.next_id >= 1
    &&& v.used_ports.len() < v.next_id
    &&& distinct(v.used_ports)
    &&& distinct(v.handles)
    &&& forall|i: int|
        0 <= i < v.handles.len() ==> peer_group_wf(v, (#[trigger] v.handles[i]).0, v.handles[i].1)
    &&& forall|i: int|
        0 <= i < v.used_ports.len() ==> {
            let (port, key) = #[trigger] v.used_ports[i];
            &&& port >= 1
            &&& get(v.handles, key) matches Some(g) && g[0].1.entry.port == port
        }
    &&& forall|i: int, j: int, id: PeerId|
        0 <= i < v.handles.len() && 0 <= j < v.handles.len() && #[trigger] has_key(
            v.handles[i].1,
            id,
        ) && #[trigger] has_key(v.handles[j].1, id) ==> i == j
}

/// Whether `p` is the lowest port that is not in use.
pub open spec fn lowest_free(ports: Seq<(PeerPort, PublicKey)>, p: PeerPort) -> bool {
    &&& p >= 1
    &&& !has_key(ports, p)
    &&& forall|q: PeerPort| 1 <= q < p ==> #[trigger] has_key(ports, q)
}

/// The port that a connection to `key` gets: that of the connections there are, or the lowest
/// that is free.
pub open spec fn port_for(v: PeersView, key: PublicKey, p: PeerPort) -> bool {
    match get(v.handles, key) {
        Some(g) => p == g[0].1.entry.port,
        None => lowest_free(v.used_ports, p),
    }
}

/// An empty queue.
pub open spec fn no_traffic() -> QueueView {
    QueueView { dests: Seq::empty(), size: 0 }
}

/// The peers after a connection to `key` was added, with port `p`.
pub open spec fn allocated(v: PeersView, key: PublicKey, prio: u8, p: PeerPort) -> (
    PeersView,
    PeerEntry,
) {
    let e = PeerEntry { id: v.next_id, key, port: p, prio, order: v.order };
    let group = match get(v.handles, key) {
        Some(g) => g,
        None => Seq::empty(),
    };
    (
        PeersView {
            next_id: (v.next_id + 1) as u64,
            order: (v.order + 1) as u64,
            used_ports: if has_key(v.handles, key) {
                v.used_ports
            } else {
                put(v.used_ports, p, key)
            },
            handles: put(
                v.handles,
                key,
                put(group, v.next_id, HandleView { entry: e, queue: no_traffic() }),
            ),
        },
        e,
    )
}

/// The peers after a connection went: with its last connection a peer's port is free again.
pub open spec fn removed(v: PeersView, id: PeerId, key: PublicKey) -> (
    PeersView,
    Option<PeerPort>,
) {
    match get(v.handles, key) {
        None => (v, None),
        Some(group) => match get(group, id) {
            None => (v, None),
            Some(h) => {
                let left = del(group, id);
                (
                    if left.len() == 0 {
                        PeersView {
                            handles: del(v.handles, key),
                            used_ports: del(v.used_ports, h.entry.port),
                            ..v
                        }
                    } else {
                        PeersView { handles: put(v.handles, key, left), ..v }
                    },
                    Some(h.entry.port),
                )
            },
        },
    }
}

/// Position of the peer that connection `id` belongs to; the number of peers if there is none.
pub open spec fn group_of(handles: Seq<(PublicKey, GroupView)>, id: PeerId) -> int {
    crate::seqs::first_index(handles, |g: (PublicKey, GroupView)| has_key(g.1, id))
}

/// The connection `id`.
pub open spec fn handle_of(v: PeersView, id: PeerId) -> Option<HandleView> {
    let at = group_of(v.handles, id);
    if at < v.handles.len() {
        get(v.handles[at].1, id)
    } else {
        None
    }
}

/// The peers with another queue for connection `id`.
pub open spec fn with_queue(v: PeersView, id: PeerId, q: QueueView) -> PeersView {
    let at = group_of(v.handles, id);
    if at < v.handles.len() {
        let (key, group) = v.handles[at];
        let h = get(group, id)->0;
        PeersView {
            handles: v.handles.update(
                at,
                (key, put(group, id, HandleView { queue: q, ..h })),
            ),
            ..v
        }
    } else {
        v
    }
}

/// The ports from 1 to `p` cannot all be in use if they outnumber the ports in use.
proof fn lemma_ports_run_out(ports: Seq<(PeerPort, PublicKey)>, p: PeerPort)
    requires
        forall|q: PeerPort| 1 <= q <= p ==> #[trigger] has_key(ports, q),
    ensures
        p <= ports.len(),
{
    let s = vstd::set_lib::set_int_range(1, p + 1);
    vstd::set_lib::lemma_int_range(1, p + 1);
    let f = |q: int| find(ports, q as u64);
    let at = s.map(f);
    let range = vstd::set_lib::set_int_range(0, ports.len() as int);
    vstd::set_lib::lemma_int_range(0, ports.len() as int);
    assert(at.subset_of(range)) by {
        assert forall|x: int| at.contains(x) implies range.contains(x) by {
            let q = choose|q: int| s.contains(q) && f(q) == x;
            assert(has_key(ports, q as u64));
            lemma_find(ports, q as u64);
        }
    }
    assert(vstd::relations::injective_on(f, s)) by {
        assert forall|a: int, b: int| s.contains(a) && s.contains(b) && f(a) == f(b) implies a == b by {
            assert(has_key(ports, a as u64) && has_key(ports, b as u64));
            lemma_find(ports, a as u64);
            lemma_find(ports, b as u64);
        }
    }
    vstd::set_lib::lemma_map_size(s, at, f);
    vstd::set_lib::lemma_len_subset(at, range);
}

impl Peers {
    /// The invariant of the peer connections.
    pub open spec fn wf(&self) -> bool {
        peers_wf(self@)
    }

    /// No connections.
    pub fn new() -> (r: Self)
        ensures
            r.wf(),
            r@ == (PeersView {
                next_id: 1,
                used_ports: Seq::empty(),
                handles: Seq::empty(),
                order: 0,
            }),
    {
        let r = Peers { next_id: 1, used_ports: KeyTable::new(), handles: KeyTable::new(), order: 0 };
        assert(r@.handles =~= Seq::empty());
        r
    }

    /// Scans from 1 upward and returns the lowest port not currently in use.
    fn alloc_port(&self) -> (p: PeerPort)
        requires
            self.wf(),
        ensures
            lowest_free(self@.used_ports, p),
    {
        let mut p: PeerPort = 1;
        while self.used_ports.contains_key(&p)
            invariant
                self.wf(),
                p >= 1,
                forall|q: PeerPort| 1 <= q < p ==> #[trigger] has_key(self@.used_ports, q),
            decreases u64::MAX - p,
        {
            proof {
                lemma_ports_run_out(self@.used_ports, p);
            }
            p += 1;
        }
        p
    }

    /// Adds a connection to the peer `key` and returns it. A peer keeps its port over all its
    /// connections; a new peer gets the lowest free port.
    pub fn allocate_peer(&mut self, key: PublicKey, prio: u8) -> (e: PeerEntry)
        requires
            old(self).wf(),
            old(self)@.next_id < u64::MAX,
            old(self)@.order < u64::MAX,
        ensures
            final(self).wf(),
            port_for(old(self)@, key, e.port),
            (final(self)@, e) == allocated(old(self)@, key, prio, e.port),
    {
        let ghost v = self@;
        let id: PeerId = self.next_id;
        let order: u64 = self.order;
        proof {
            lemma_mapped_find(self.handles@, handles_view(), key);
            lemma_find(v.handles, key);
        }
        let handle_queue = PacketQueue::new();
        let port: PeerPort;
        match self.handles.position(&key) {
            Some(at) => {
                assert(peer_group_wf(v, v.handles[at as int].0, v.handles[at as int].1));
                let group = self.handles.value_at_mut(at);
                let ghost g = mapped(group@, handle_view());
                assert(get(v.handles, key) == Some(g));
                assert(g[0].1 == group@[0].1@);
                port = group.value_at(0).port;
                let handle = PeerHandle { id, key, port, prio, order, traffic_queue: handle_queue };
                proof {
                    lemma_mapped_put(group@, handle_view(), id, handle);
                }
                group.insert(id, handle);
                proof {
                    lemma_allocated_wf(v, key, prio, port);
                    assert(self@.handles =~= allocated(v, key, prio, port).0.handles);
                }
            },
            None => {
                port = self.alloc_port();
                let handle = PeerHandle { id, key, port, prio, order, traffic_queue: handle_queue };
                let mut group: KeyTable<PeerId, PeerHandle> = KeyTable::new();
                proof {
                    lemma_mapped_put(group@, handle_view(), id, handle);
                    assert(mapped(group@, handle_view()) =~= Seq::empty());
                }
                group.insert(id, handle);
                proof {
                    lemma_mapped_put(self.handles@, handles_view(), key, group);
                    lemma_allocated_wf(v, key, prio, port);
                }
                self.handles.insert(key, group);
                self.used_ports.insert(port, key);
            },
        }
        self.next_id = id + 1;
        self.order = order + 1;
        PeerEntry { id, key, port, prio, order }
    }
}

proof fn lemma_allocated_wf(v: PeersView, key: PublicKey, prio: u8, p: PeerPort)
    requires
        peers_wf(v),
        port_for(v, key, p),
        v.next_id < u64::MAX,
        v.order < u64::MAX,
    ensures
        peers_wf(allocated(v, key, prio, p).0),
{
    let (n, e) = allocated(v, key, prio, p);
    let h = HandleView { entry: e, queue: no_traffic() };
    let id = v.next_id;
    lemma_find(v.handles, key);
    let known = has_key(v.handles, key);
    let group = match get(v.handles, key) {
        Some(g) => g,
        None => Seq::empty(),
    };
    let at = if known {
        find(v.handles, key)
    } else {
        v.handles.len() as int
    };
    if known {
        assert(peer_group_wf(v, v.handles[at].0, v.handles[at].1));
    }
    assert(!has_key(group, id)) by {
        lemma_find(group, id);
        if has_key(group, id) {
            assert(group[find(group, id)].1.entry.id < v.next_id);
        }
    }
    lemma_find(group, id);
    let g2 = put(group, id, h);
    assert(g2 =~= group.push((id, h)));
    lemma_put(group, id, h);
    lemma_put(v.handles, key, g2);
    lemma_put(v.used_ports, p, key);
    lemma_find(v.used_ports, p);
    assert(n.handles[at] == (key, g2));
    assert forall|i: int| 0 <= i < n.handles.len() && i != at implies n.handles[i] == v.handles[i] by {}
    assert(get(n.used_ports, p) == Some(key)) by {
        if known {
            assert(get(v.used_ports, group[0].1.entry.port) == Some(key));
        }
    }
    // Every other port keeps its peer.
    assert forall|q: PeerPort| has_key(v.used_ports, q) implies get(n.used_ports, q) == get(
        v.used_ports,
        q,
    ) by {
        if !known {
            assert(get(put(v.used_ports, p, key), q) == (if q == p {
                Some(key)
            } else {
                get(v.used_ports, q)
            }));
        }
    }
    assert forall|i: int| 0 <= i < n.handles.len() implies peer_group_wf(
        n,
        (#[trigger] n.handles[i]).0,
        n.handles[i].1,
    ) by {
        if i == at {
            assert forall|j: int| 0 <= j < g2.len() implies ({
                let x = (#[trigger] g2[j]).1;
                &&& x.entry.id == g2[j].0
                &&& x.entry.id < n.next_id
                &&& x.entry.key == key
                &&& x.entry.port == g2[0].1.entry.port
                &&& queue_wf(x.queue)
            }) by {
                if j < group.len() {
                    assert(g2[j] == group[j]);
                }
                if known {
                    assert(g2[0] == group[0]);
                }
            }
        } else {
            assert(peer_group_wf(v, v.handles[i].0, v.handles[i].1));
            let g = v.handles[i].1;
            assert(has_key(v.used_ports, g[0].1.entry.port));
        }
    }
    assert forall|i: int| 0 <= i < n.used_ports.len() implies ({
        let (port, k) = #[trigger] n.used_ports[i];
        &&& port >= 1
        &&& get(n.handles, k) matches Some(g) && g[0].1.entry.port == port
    }) by {
        let (port, k) = n.used_ports[i];
        assert(get(n.handles, k) == (if k == key {
            Some(g2)
        } else {
            get(v.handles, k)
        }));
        if i < v.used_ports.len() {
            assert(n.used_ports[i] == v.used_ports[i]);
            assert(get(v.handles, k) is Some);
            if k == key {
                assert(g2[0] == group[0]);
            }
        } else {
            assert(n.used_ports[i] == (p, key));
            assert(group.len() == 0);
            assert(g2[0] == (id, h));
        }
    }
    assert forall|i: int, j: int, x: PeerId|
        0 <= i < n.handles.len() && 0 <= j < n.handles.len() && #[trigger] has_key(
            n.handles[i].1,
            x,
        ) && #[trigger] has_key(n.handles[j].1, x) implies i == j by {
        lemma_new_id(v, n, key, at, group, g2, h, i, x);
        lemma_new_id(v, n, key, at, group, g2, h, j, x);
        if i != j && x != id {
            let gi = if i == at {
                group
            } else {
                v.handles[i].1
            };
            let gj = if j == at {
                group
            } else {
                v.handles[j].1
            };
            if known || (i != at && j != at) {
                assert(has_key(v.handles[i].1, x) && has_key(v.handles[j].1, x));
            }
        }
    }
}

/// A new id is in the group it was put in alone; any other is where it was before.
proof fn lemma_new_id(
    v: PeersView,
    n: PeersView,
    key: PublicKey,
    at: int,
    group: GroupView,
    g2: GroupView,
    h: HandleView,
    i: int,
    x: PeerId,
)
    requires
        peers_wf(v),
        0 <= i < n.handles.len(),
        0 <= at <= v.handles.len(),
        n.handles.len() == (if at < v.handles.len() {
            v.handles.len()
        } else {
            v.handles.len() + 1
        }),
        at < v.handles.len() ==> group == v.handles[at].1,
        at == v.handles.len() ==> group.len() == 0,
        g2 == put(group, v.next_id, h),
        n.handles[at] == (key, g2),
        forall|j: int| 0 <= j < n.handles.len() && j != at ==> n.handles[j] == v.handles[j],
        has_key(n.handles[i].1, x),
    ensures
        x == v.next_id ==> i == at,
        x != v.next_id ==> i < v.handles.len() && has_key(v.handles[i].1, x),
{
    lemma_put(group, v.next_id, h);
    if i == at {
        if x != v.next_id {
            assert(get(g2, x) is Some);
            assert(get(g2, x) == get(group, x));
            assert(has_key(group, x));
            lemma_find(group, x);
        }
    } else {
        let g = v.handles[i].1;
        assert(n.handles[i] == v.handles[i]);
        assert(peer_group_wf(v, v.handles[i].0, g));
        lemma_find(g, x);
        if x == v.next_id {
            assert(g[find(g, x)].1.entry.id < v.next_id);
        }
    }
}

proof fn lemma_removed_wf(v: PeersView, id: PeerId, key: PublicKey)
    requires
        peers_wf(v),
    ensures
        peers_wf(removed(v, id, key).0),
{
    let n = removed(v, id, key).0;
    lemma_find(v.handles, key);
    if has_key(v.handles, key) && has_key(get(v.handles, key)->0, id) {
        let at = find(v.handles, key);
        let group = v.handles[at].1;
        let h = get(group, id)->0;
        assert(peer_group_wf(v, v.handles[at].0, group));
        lemma_find(group, id);
        lemma_del(group, id);
        let f = find(group, id);
        let left = del(group, id);
        let port = group[0].1.entry.port;
        assert(group[f].1.entry.port == port);
        lemma_del(v.handles, key);
        lemma_del(v.used_ports, port);
        lemma_put(v.handles, key, left);
        lemma_find(v.used_ports, port);
        if left.len() == 0 {
            assert forall|i: int| 0 <= i < n.handles.len() implies #[trigger] n.handles[i] == (if i
                < at {
                v.handles[i]
            } else {
                v.handles[i + 1]
            }) by {}
            assert forall|i: int| 0 <= i < n.handles.len() implies peer_group_wf(
                n,
                (#[trigger] n.handles[i]).0,
                n.handles[i].1,
            ) by {
                let o = if i < at {
                    i
                } else {
                    i + 1
                };
                let (k, g) = v.handles[o];
                assert(peer_group_wf(v, v.handles[o].0, v.handles[o].1));
                assert(k != key);
                let q = g[0].1.entry.port;
                assert(get(v.used_ports, q) == Some(k));
                assert(get(v.used_ports, port) == Some(key));
                assert(q != port);
                assert(get(n.used_ports, q) == get(v.used_ports, q));
            }
            assert forall|i: int| 0 <= i < n.used_ports.len() implies ({
                let (q, k) = #[trigger] n.used_ports[i];
                &&& q >= 1
                &&& get(n.handles, k) matches Some(g) && g[0].1.entry.port == q
            }) by {
                let pf = find(v.used_ports, port);
                let o = if i < pf {
                    i
                } else {
                    i + 1
                };
                let (q, k) = v.used_ports[o];
                assert(n.used_ports[i] == v.used_ports[o]);
                assert(v.used_ports[o].0 != v.used_ports[pf].0);
                assert(get(v.handles, k) is Some);
                if k == key {
                    assert(get(v.handles, key) == Some(group));
                }
                assert(get(n.handles, k) == get(v.handles, k));
            }
            assert forall|i: int, j: int, x: PeerId|
                0 <= i < n.handles.len() && 0 <= j < n.handles.len() && #[trigger] has_key(
                    n.handles[i].1,
                    x,
                ) && #[trigger] has_key(n.handles[j].1, x) implies i == j by {
                let oi = if i < at {
                    i
                } else {
                    i + 1
                };
                let oj = if j < at {
                    j
                } else {
                    j + 1
                };
                assert(has_key(v.handles[oi].1, x) && has_key(v.handles[oj].1, x));
            }
        } else {
            let at2 = at;
            assert forall|j: int| 0 <= j < left.len() implies #[trigger] left[j] == (if j < f {
                group[j]
            } else {
                group[j + 1]
            }) by {}
            assert forall|i: int| 0 <= i < n.handles.len() implies peer_group_wf(
                n,
                (#[trigger] n.handles[i]).0,
                n.handles[i].1,
            ) by {
                if i == at {
                    assert(n.handles[i] == (key, left));
                    assert(left[0].1.entry.port == port);
                } else {
                    assert(n.handles[i] == v.handles[i]);
                    assert(peer_group_wf(v, v.handles[i].0, v.handles[i].1));
                }
            }
            assert forall|i: int| 0 <= i < n.used_ports.len() implies ({
                let (q, k) = #[trigger] n.used_ports[i];
                &&& q >= 1
                &&& get(n.handles, k) matches Some(g) && g[0].1.entry.port == q
            }) by {
                let (q, k) = v.used_ports[i];
                assert(get(n.handles, k) == (if k == key {
                    Some(left)
                } else {
                    get(v.handles, k)
                }));
                if k == key {
                    assert(left[0].1.entry.port == port);
                }
            }
            assert forall|i: int, j: int, x: PeerId|
                0 <= i < n.handles.len() && 0 <= j < n.handles.len() && #[trigger] has_key(
                    n.handles[i].1,
                    x,
                ) && #[trigger] has_key(n.handles[j].1, x) implies i == j by {
                if i == at {
                    assert(get(left, x) is Some);
                    assert(has_key(group, x));
                }
                if j == at {
                    assert(get(left, x) is Some);
                    assert(has_key(group, x));
                }
                assert(has_key(v.handles[i].1, x) && has_key(v.handles[j].1, x));
            }
        }
    }
}

proof fn lemma_with_queue_wf(v: PeersView, id: PeerId, q: QueueView)
    requires
        peers_wf(v),
        queue_wf(q),
    ensures
        peers_wf(with_queue(v, id, q)),
{
    let n = with_queue(v, id, q);
    let p = |g: (PublicKey, GroupView)| has_key(g.1, id);
    crate::seqs::lemma_first_index(v.handles, p);
    let at = group_of(v.handles, id);
    if at < v.handles.len() {
        let (key, group) = v.handles[at];
        assert(p(v.handles[at]));
        let h = get(group, id)->0;
        let h2 = HandleView { queue: q, ..h };
        assert(peer_group_wf(v, v.handles[at].0, v.handles[at].1));
        lemma_find(group, id);
        let f = find(group, id);
        let g2 = put(group, id, h2);
        assert(g2 =~= group.update(f, (id, h2)));
        lemma_put(group, id, h2);
        lemma_entry(v.handles, at);
        lemma_put(v.handles, key, g2);
        assert(n.handles == put(v.handles, key, g2));
        assert(group[f].1 == h);
        assert forall|i: int| 0 <= i < n.handles.len() implies peer_group_wf(
            n,
            (#[trigger] n.handles[i]).0,
            n.handles[i].1,
        ) by {
            if i == at {
                assert forall|j: int| 0 <= j < g2.len() implies ({
                    let x = (#[trigger] g2[j]).1;
                    &&& x.entry.id == g2[j].0
                    &&& x.entry.id < n.next_id
                    &&& x.entry.key == key
                    &&& x.entry.port == g2[0].1.entry.port
                    &&& queue_wf(x.queue)
                }) by {
                    assert(group[j].1.entry.id == group[j].0);
                    assert(g2[0].1.entry == group[0].1.entry);
                }
                assert(g2[0].1.entry == group[0].1.entry);
            } else {
                assert(n.handles[i] == v.handles[i]);
                assert(peer_group_wf(v, v.handles[i].0, v.handles[i].1));
            }
        }
        assert forall|i: int| 0 <= i < n.used_ports.len() implies ({
            let (port, k) = #[trigger] n.used_ports[i];
            &&& port >= 1
            &&& get(n.handles, k) matches Some(g) && g[0].1.entry.port == port
        }) by {
            let (port, k) = v.used_ports[i];
            assert(get(n.handles, k) == (if k == key {
                Some(g2)
            } else {
                get(v.handles, k)
            }));
            assert(g2[0].1.entry == group[0].1.entry);
        }
        assert forall|i: int, j: int, x: PeerId|
            0 <= i < n.handles.len() && 0 <= j < n.handles.len() && #[trigger] has_key(
                n.handles[i].1,
                x,
            ) && #[trigger] has_key(n.handles[j].1, x) implies i == j by {
            if i == at {
                assert(get(g2, x) is Some);
                assert(has_key(group, x));
            }
            if j == at {
                assert(get(g2, x) is Some);
                assert(has_key(group, x));
            }
            assert(has_key(v.handles[i].1, x) && has_key(v.handles[j].1, x));
        }
    }
}

impl Peers {
    /// Removes a connection by id. Returns its port.
    pub fn remove_peer(&mut self, id: PeerId, key: &PublicKey) -> (r: Option<PeerPort>)
        requires
            old(self).wf(),
        ensures
            final(self).wf(),
            (final(self)@, r) == removed(old(self)@, id, *key),
    {
        let ghost v = self@;
        proof {
            lemma_mapped_find(self.handles@, handles_view(), *key);
            lemma_find(v.handles, *key);
            lemma_removed_wf(v, id, *key);
        }
        match self.handles.position(key) {
            Some(at) => {
                let ghost group = v.handles[at as int].1;
                assert(group == mapped(self.handles@[at as int].1@, handle_view()));
                proof {
                    lemma_mapped_find(self.handles@[at as int].1@, handle_view(), id);
                    lemma_find(group, id);
                }
                let g = self.handles.value_at(at);
                let port: PeerPort = match g.get(&id) {
                    Some(h) => h.port,
                    None => {
                        return None;
                    },
                };
                if g.len() == 1 {
                    assert(del(group, id).len() == 0);
                    proof {
                        lemma_mapped_del(self.handles@, handles_view(), *key);
                    }
                    let _ = self.handles.remove(key);
                    let _ = self.used_ports.remove(&port);
                } else {
                    let g = self.handles.value_at_mut(at);
                    proof {
                        lemma_mapped_del(g@, handle_view(), id);
                    }
                    let _ = g.remove(&id);
                    assert(self@.handles =~= put(v.handles, *key, del(group, id)));
                }
                assert(self@ == removed(v, id, *key).0);
                Some(port)
            },
            None => None,
        }
    }

    /// Position of the peer that connection `id` belongs to.
    fn find_group(&self, id: PeerId) -> (r: Option<usize>)
        ensures
            match r {
                Some(at) => at < self.handles@.len() && at == group_of(self@.handles, id)
                    && has_key(self.handles@[at as int].1@, id),
                None => group_of(self@.handles, id) == self@.handles.len(),
            },
    {
        let ghost p = |g: (PublicKey, GroupView)| has_key(g.1, id);
        let mut i: usize = 0;
        while i < self.handles.len()
            invariant
                i <= self.handles@.len(),
                p == (|g: (PublicKey, GroupView)| has_key(g.1, id)),
                forall|j: int| 0 <= j < i ==> !p(#[trigger] self@.handles[j]),
            decreases self.handles@.len() - i,
        {
            proof {
                lemma_mapped_find(self.handles@[i as int].1@, handle_view(), id);
                assert(self@.handles[i as int].1 == mapped(
                    self.handles@[i as int].1@,
                    handle_view(),
                ));
            }
            if self.handles.value_at(i).contains_key(&id) {
                proof {
                    crate::seqs::lemma_first_index_at(self@.handles, p, i as int);
                }
                return Some(i);
            }
            i += 1;
        }
        proof {
            crate::seqs::lemma_first_index_at(self@.handles, p, i as int);
        }
        None
    }

    /// Gets what the router needs to know of connection `peer_id`.
    pub fn get_handle(&self, peer_id: PeerId) -> (r: Option<PeerEntry>)
        ensures
            match r {
                Some(e) => handle_of(self@, peer_id) matches Some(h) && h.entry == e,
                None => handle_of(self@, peer_id) is None,
            },
    {
        match self.find_group(peer_id) {
            Some(at) => {
                proof {
                    lemma_mapped_find(self.handles@[at as int].1@, handle_view(), peer_id);
                }
                match self.handles.value_at(at).get(&peer_id) {
                    Some(h) => Some(h.to_entry()),
                    None => None,
                }
            },
            None => None,
        }
    }

    /// Queues traffic for a peer with back-pressure: if the oldest packet that waits is older
    /// than allowed, one is dropped from the largest flow. Returns whether the connection is
    /// there.
    pub fn send_traffic_to_peer(&mut self, peer_id: PeerId, traffic: TrafficPacket, now: u64) -> (r:
        bool)
        requires
            old(self).wf(),
            wire_len(traffic@) <= usize::MAX,
            handle_of(old(self)@, peer_id) matches Some(h) ==> h.queue.size + wire_len(traffic@)
                <= u64::MAX,
        ensures
            final(self).wf(),
            match handle_of(old(self)@, peer_id) {
                Some(h) => r && final(self)@ == with_queue(
                    old(self)@,
                    peer_id,
                    queue_pushed(
                        relieved(h.queue, now),
                        InfoView {
                            packet: traffic@,
                            size: wire_len(traffic@) as u64,
                            time: now,
                        },
                    ),
                ),
                None => !r && final(self)@ == old(self)@,
            },
    {
        let ghost v = self@;
        match self.find_group(peer_id) {
            Some(at) => {
                let ghost tv = traffic@;
                let ghost group = v.handles[at as int].1;
                proof {
                    lemma_mapped_find(self.handles@[at as int].1@, handle_view(), peer_id);
                    assert(peer_group_wf(v, v.handles[at as int].0, v.handles[at as int].1));
                    lemma_find(group, peer_id);
                }
                let g = self.handles.value_at_mut(at);
                let j: usize = match g.position(&peer_id) {
                    Some(j) => j,
                    None => 0,
                };
                let h = g.value_at_mut(j);
                assert(group[j as int].1 == h@);
                assert(handle_of(v, peer_id) == Some(h@));
                h.traffic_queue.push_relieved(traffic, now);
                proof {
                    let q = h.traffic_queue@;
                    lemma_with_queue_wf(v, peer_id, q);
                    assert(mapped(self.handles@[at as int].1@, handle_view()) =~= put(
                        group,
                        peer_id,
                        HandleView { queue: q, ..group[j as int].1 },
                    ));
                    assert(self@.handles =~= with_queue(v, peer_id, q).handles);
                }
                true
            },
            None => false,
        }
    }

    /// Takes up to `max` queued packets for a connection, oldest first.
    pub fn take_traffic(&mut self, peer_id: PeerId, max: usize) -> (r: Vec<TrafficPacket>)
        requires
            old(self).wf(),
        ensures
            final(self).wf(),
            match handle_of(old(self)@, peer_id) {
                Some(h) => {
                    let (q, packets) = drained(h.queue, max as nat);
                    packets_view(r@) == packets && final(self)@ == with_queue(
                        old(self)@,
                        peer_id,
                        q,
                    )
                },
                None => r@.len() == 0 && final(self)@ == old(self)@,
            },
    {
        let ghost v = self@;
        match self.find_group(peer_id) {
            Some(at) => {
                let ghost group = v.handles[at as int].1;
                proof {
                    lemma_mapped_find(self.handles@[at as int].1@, handle_view(), peer_id);
                    assert(peer_group_wf(v, v.handles[at as int].0, v.handles[at as int].1));
                    lemma_find(group, peer_id);
                }
                let g = self.handles.value_at_mut(at);
                let j: usize = match g.position(&peer_id) {
                    Some(j) => j,
                    None => 0,
                };
                let h = g.value_at_mut(j);
                assert(group[j as int].1 == h@);
                let batch = h.traffic_queue.pop_batch(max);
                proof {
                    let q = h.traffic_queue@;
                    lemma_with_queue_wf(v, peer_id, q);
                    assert(mapped(self.handles@[at as int].1@, handle_view()) =~= put(
                        group,
                        peer_id,
                        HandleView { queue: q, ..group[j as int].1 },
                    ));
                    assert(self@.handles =~= with_queue(v, peer_id, q).handles);
                }
                batch
            },
            None => Vec::new(),
        }
    }
}

// ---------------------------------------------------------------------------
// Laws of the ports
// ---------------------------------------------------------------------------

/// Two connections have the same port exactly when they belong to the same peer, and no port
/// is zero.
pub proof fn lemma_ports_tell_peers_apart(v: PeersView, i: int, j: int, a: int, b: int)
    requires
        peers_wf(v),
        0 <= i < v.handles.len(),
        0 <= j < v.handles.len(),
        0 <= a < v.handles[i].1.len(),
        0 <= b < v.handles[j].1.len(),
    ensures
        v.handles[i].1[a].1.entry.port == v.handles[j].1[b].1.entry.port <==> i == j,
        v.handles[i].1[a].1.entry.port >= 1,
{
    let (k, g) = v.handles[i];
    let (l, h) = v.handles[j];
    assert(peer_group_wf(v, v.handles[i].0, v.handles[i].1));
    assert(peer_group_wf(v, v.handles[j].0, v.handles[j].1));
    assert(g[a].1.entry.port == g[0].1.entry.port);
    assert(h[b].1.entry.port == h[0].1.entry.port);
    let p = g[0].1.entry.port;
    lemma_find(v.used_ports, p);
    let f = find(v.used_ports, p);
    assert(v.used_ports[f].0 >= 1);
    if i != j {
        if i < j {
            assert(v.handles[i].0 != v.handles[j].0);
        } else {
            assert(v.handles[j].0 != v.handles[i].0);
        }
    }
}

/// A port that was given up with the last connection of its peer is free again.
pub proof fn lemma_port_is_freed(v: PeersView, id: PeerId, key: PublicKey)
    requires
        peers_wf(v),
        removed(v, id, key).1 is Some,
        !has_key(removed(v, id, key).0.handles, key),
    ensures
        !has_key(removed(v, id, key).0.used_ports, removed(v, id, key).1->0),
{
    let n = removed(v, id, key).0;
    let p = removed(v, id, key).1->0;
    lemma_find(v.handles, key);
    let group = get(v.handles, key)->0;
    let left = del(group, id);
    lemma_put(v.handles, key, left);
    lemma_del(v.used_ports, p);
    if left.len() > 0 {
        assert(get(put(v.handles, key, left), key) == Some(left));
    } else {
        assert(get(del(v.used_ports, p), p) is None);
    }
}

proof fn lemma_handle_at(v: PeersView, i: int, id: PeerId)
    requires
        peers_wf(v),
        0 <= i < v.handles.len(),
        has_key(v.handles[i].1, id),
    ensures
        group_of(v.handles, id) == i,
        handle_of(v, id) == get(v.handles[i].1, id),
{
    let p = |g: (PublicKey, GroupView)| has_key(g.1, id);
    crate::seqs::lemma_first_index(v.handles, p);
    let at = group_of(v.handles, id);
    assert(p(v.handles[i]));
    assert(at <= i);
    assert(p(v.handles[at]));
    assert(has_key(v.handles[at].1, id) && has_key(v.handles[i].1, id));
}

proof fn lemma_no_handle(v: PeersView, id: PeerId)
    requires
        forall|i: int| 0 <= i < v.handles.len() ==> !has_key((#[trigger] v.handles[i]).1, id),
    ensures
        handle_of(v, id) is None,
{
    let p = |g: (PublicKey, GroupView)| has_key(g.1, id);
    crate::seqs::lemma_first_index(v.handles, p);
}

/// The connection `id` belongs to `key` exactly where it is among the connections to `key`.
proof fn lemma_handle_is(v: PeersView, key: PublicKey, id: PeerId)
    requires
        peers_wf(v),
    ensures
        (handle_of(v, id) matches Some(h) && h.entry.key == key) <==> (get(v.handles, key) matches Some(
            g,
        ) && has_key(g, id)),
        get(v.handles, key) matches Some(g) ==> (has_key(g, id) ==> handle_of(v, id) == get(g, id)),
{
    let p = |g: (PublicKey, GroupView)| has_key(g.1, id);
    crate::seqs::lemma_first_index(v.handles, p);
    let at = group_of(v.handles, id);
    lemma_find(v.handles, key);
    if let Some(g) = get(v.handles, key) {
        if has_key(g, id) {
            let f = find(v.handles, key);
            lemma_handle_at(v, f, id);
            assert(peer_group_wf(v, v.handles[f].0, v.handles[f].1));
            lemma_find(g, id);
            assert(g[find(g, id)].1.entry.key == key);
        }
    }
    if at < v.handles.len() {
        let (k, g) = v.handles[at];
        assert(p(v.handles[at]));
        assert(peer_group_wf(v, v.handles[at].0, v.handles[at].1));
        lemma_find(g, id);
        assert(g[find(g, id)].1.entry.key == k);
        crate::table::lemma_entry(v.handles, at);
    }
}

/// A connection that is added is there, under an id that no connection had, with an empty queue, with
/// the key, the port and the priority that were given, and younger than all before. All other
/// connections are as they were.
pub proof fn lemma_added_connection_is_there(
    v: PeersView,
    key: PublicKey,
    prio: u8,
    p: PeerPort,
    other: PeerId,
)
    requires
        peers_wf(v),
        peers_wf(allocated(v, key, prio, p).0),
    ensures
        ({
            let (u, e) = allocated(v, key, prio, p);
            &&& handle_of(v, e.id) is None
            &&& handle_of(u, e.id) == Some(HandleView { entry: e, queue: no_traffic() })
            &&& e.key == key && e.port == p && e.prio == prio && e.order == v.order
            &&& other != e.id ==> handle_of(u, other) == handle_of(v, other)
        }),
{
    let (u, e) = allocated(v, key, prio, p);
    let h = HandleView { entry: e, queue: no_traffic() };
    let group = match get(v.handles, key) {
        Some(g) => g,
        None => Seq::empty(),
    };
    let more = put(group, e.id, h);
    lemma_find(v.handles, key);
    lemma_put(group, e.id, h);
    lemma_put(v.handles, key, more);
    assert(get(u.handles, key) == Some(more));
    assert(get(more, e.id) == Some(h));
    lemma_handle_is(u, key, e.id);
    assert forall|i: int| 0 <= i < v.handles.len() implies !has_key((#[trigger] v.handles[i]).1, e.id) by {
        assert(peer_group_wf(v, v.handles[i].0, v.handles[i].1));
        lemma_find(v.handles[i].1, e.id);
    }
    lemma_no_handle(v, e.id);
    if other != e.id {
        assert(get(more, other) == get(group, other));
        lemma_same_elsewhere(v, u, key, other);
    }
}

proof fn lemma_same_elsewhere(v: PeersView, u: PeersView, key: PublicKey, id: PeerId)
    requires
        peers_wf(v),
        peers_wf(u),
        forall|k: PublicKey| k != key ==> #[trigger] get(u.handles, k) == get(v.handles, k),
        match (get(v.handles, key), get(u.handles, key)) {
            (Some(a), Some(b)) => get(b, id) == get(a, id),
            (Some(a), None) => get(a, id) is None,
            (None, Some(b)) => get(b, id) is None,
            (None, None) => true,
        },
    ensures
        handle_of(u, id) == handle_of(v, id),
{
    if let Some(h) = handle_of(v, id) {
        let k = h.entry.key;
        lemma_handle_is(v, k, id);
        lemma_handle_is(u, k, id);
        if k != key {
            assert(get(u.handles, k) == get(v.handles, k));
        }
        let a = get(v.handles, k)->0;
        assert(get(a, id) is Some);
        if get(u.handles, k) is Some {
            let b = get(u.handles, k)->0;
            assert(get(b, id) is Some == has_key(b, id));
        }
    } else if let Some(h) = handle_of(u, id) {
        let k = h.entry.key;
        lemma_handle_is(v, k, id);
        lemma_handle_is(u, k, id);
        if k != key {
            assert(get(u.handles, k) == get(v.handles, k));
        }
        let b = get(u.handles, k)->0;
        assert(get(b, id) is Some);
        if get(v.handles, k) is Some {
            let a = get(v.handles, k)->0;
            assert(get(a, id) is Some == has_key(a, id));
        }
    }
}

/// A connection that is removed is gone, its port is told, and all other connections are as they
/// were. Where there is no such connection to that peer, nothing changes.
pub proof fn lemma_removed_connection_is_gone(v: PeersView, id: PeerId, key: PublicKey, other: PeerId)
    requires
        peers_wf(v),
        peers_wf(removed(v, id, key).0),
    ensures
        ({
            let (u, port) = removed(v, id, key);
            let there = handle_of(v, id) matches Some(h) && h.entry.key == key;
            &&& there ==> handle_of(u, id) is None && port == Some(handle_of(v, id)->0.entry.port)
            &&& !there ==> u == v && port is None
            &&& other != id ==> handle_of(u, other) == handle_of(v, other)
        }),
{
    let (u, port) = removed(v, id, key);
    lemma_handle_is(v, key, id);
    lemma_find(v.handles, key);
    if let Some(group) = get(v.handles, key) {
        assert(get(group, id) is Some == has_key(group, id));
        if has_key(group, id) {
            assert(peer_group_wf(v, v.handles[find(v.handles, key)].0, group));
            let left = del(group, id);
            lemma_del(group, id);
            lemma_del(v.handles, key);
            lemma_put(v.handles, key, left);
            assert(get(left, id) is None);
            lemma_handle_is(u, key, id);
            if let Some(h) = handle_of(u, id) {
                let k = h.entry.key;
                lemma_handle_is(u, k, id);
                lemma_handle_is(v, k, id);
                assert(k != key ==> get(u.handles, k) == get(v.handles, k));
                assert(get(left, id) is Some == has_key(left, id));
                assert(get(u.handles, key) matches Some(b) ==> b == left);
            }
            if other != id {
                assert(get(left, other) == get(group, other));
                lemma_find(left, other);
                lemma_same_elsewhere(v, u, key, other);
            }
        }
    }
}

/// Another queue for a connection is that of the connection and of no other.
pub proof fn lemma_queue_is_of_its_connection(v: PeersView, id: PeerId, q: QueueView, other: PeerId)
    requires
        peers_wf(v),
        peers_wf(with_queue(v, id, q)),
    ensures
        handle_of(v, id) matches Some(h) ==> handle_of(with_queue(v, id, q), id) == Some(
            HandleView { queue: q, ..h },
        ),
        other != id ==> handle_of(with_queue(v, id, q), other) == handle_of(v, other),
{
    let u = with_queue(v, id, q);
    let p = |g: (PublicKey, GroupView)| has_key(g.1, id);
    crate::seqs::lemma_first_index(v.handles, p);
    let at = group_of(v.handles, id);
    if at < v.handles.len() {
        let (key, group) = v.handles[at];
        assert(p(v.handles[at]));
        let h = get(group, id)->0;
        let more = put(group, id, HandleView { queue: q, ..h });
        lemma_put(group, id, HandleView { queue: q, ..h });
        crate::table::lemma_entry(v.handles, at);
        lemma_put(v.handles, key, more);
        assert(u.handles =~= put(v.handles, key, more));
        assert(get(u.handles, key) == Some(more));
        assert(get(more, id) == Some(HandleView { queue: q, ..h }));
        lemma_handle_is(u, key, id);
        if other != id {
            assert(get(more, other) == get(group, other));
            lemma_same_elsewhere(v, u, key, other);
        }
    }
}

/// Ports are given in order: a node that has no connection gets the first port of 1, 2, 3 and so on
/// that nobody uses, and a node that has one gets the port of that.
pub proof fn lemma_ports_are_given_in_order(v: PeersView, key: PublicKey, p: PeerPort, n: PeerPort)
    requires
        port_for(v, key, p),
    ensures
        get(v.handles, key) is None && n >= 1 && !has_key(v.used_ports, n) && (forall|q: PeerPort|
            1 <= q < n ==> #[trigger] has_key(v.used_ports, q)) ==> p == n,
        get(v.handles, key) matches Some(g) ==> p == g[0].1.entry.port,
{
    if get(v.handles, key) is None && n >= 1 && !has_key(v.used_ports, n) {
        if p < n {
            assert(!has_key(v.used_ports, p));
        }
    }
}

/// Every connection gets a number that none had before it, and comes after all others.
pub proof fn lemma_connections_are_numbered(
    v: PeersView,
    key: PublicKey,
    prio: u8,
    p: PeerPort,
    key2: PublicKey,
    prio2: u8,
    p2: PeerPort,
)
    requires
        v.next_id < u64::MAX,
        v.order < u64::MAX,
    ensures
        ({
            let (u, e) = allocated(v, key, prio, p);
            let f = allocated(u, key2, prio2, p2).1;
            &&& e.id == v.next_id && f.id == e.id + 1
            &&& f.order == e.order + 1
        }),
{
}

/// The port of a peer stays in use until its last connection is gone, and no other port is touched.
pub proof fn lemma_port_stays_with_its_peer(v: PeersView, id: PeerId, key: PublicKey, p: PeerPort)
    requires
        peers_wf(v),
    ensures
        ({
            let (u, port) = removed(v, id, key);
            &&& has_key(u.handles, key) ==> u.used_ports == v.used_ports
            &&& port != Some(p) ==> get(u.used_ports, p) == get(v.used_ports, p)
        }),
{
    if let Some(group) = get(v.handles, key) {
        lemma_del(v.handles, key);
        assert(get(del(v.handles, key), key) is None);
        if let Some(h) = get(group, id) {
            lemma_del(v.used_ports, h.entry.port);
            assert(p != h.entry.port ==> get(del(v.used_ports, h.entry.port), p) == get(
                v.used_ports,
                p,
            ));
        }
    }
}

} // verus!
