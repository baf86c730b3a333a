//! Bloom filters exchanged with the peers of a node.
use vstd::prelude::*;
use crate::bloom::{key_bits, BloomFilter};
use crate::bytes::{key_eq, PublicKey};
use crate::table::{
    distinct, find, get, has_key, lemma_entry, lemma_find, lemma_find_at, lemma_mapped_find, lemma_mapped_put,
    lemma_mapped_del, lemma_put, mapped, put, del, KeyTable,
};

verus! {

/// How a node's key is transformed before it goes into a filter.
pub trait KeyTransform {
    /// The transformed key.
    spec fn transformed(&self, key: PublicKey) -> PublicKey;

    /// Transforms a key.
    fn apply(&self, key: &PublicKey) -> (r: PublicKey)
        ensures
            r == self.transformed(*key),
    ;
}

/// The transform that leaves every key as it is.
#[derive(Clone, Copy, Debug, PartialEq, Eq, Structural)]
pub struct IdentityTransform;

impl KeyTransform for IdentityTransform {
    open spec fn transformed(&self, key: PublicKey) -> PublicKey {
        key
    }

    fn apply(&self, key: &PublicKey) -> (r: PublicKey) {
        *key
    }
}

/// Per-peer bloom filter tracking.
pub struct BloomInfo {
    /// What we advertise to this peer.
    pub send: BloomFilter,
    /// What we received from this peer.
    pub recv: BloomFilter,
    /// Sequence counter for periodic resend.
    pub seq: u16,
    /// Whether this peer is on the spanning tree.
    pub on_tree: bool,
    /// Whether we've set unnecessary 1 bits (need cleanup).
    pub z_dirty: bool,
}

/// What a [`BloomInfo`] holds.
pub struct BloomInfoView {
    pub send: Set<int>,
    pub recv: Set<int>,
    pub seq: u16,
    pub on_tree: bool,
    pub z_dirty: bool,
}

impl View for BloomInfo {
    type V = BloomInfoView;

    open spec fn view(&self) -> BloomInfoView {
        BloomInfoView {
            send: self.send@,
            recv: self.recv@,
            seq: self.seq,
            on_tree: self.on_tree,
            z_dirty: self.z_dirty,
        }
    }
}

/// The state of a peer that nothing was exchanged with yet.
pub open spec fn fresh_info() -> BloomInfoView {
    BloomInfoView {
        send: Set::empty(),
        recv: Set::empty(),
        seq: 0,
        on_tree: false,
        z_dirty: false,
    }
}

impl BloomInfo {
    /// The state of a peer that nothing was exchanged with yet.
    pub fn new() -> (r: Self)
        ensures
            r@ == fresh_info(),
    {
        BloomInfo {
            send: BloomFilter::new(),
            recv: BloomFilter::new(),
            seq: 0,
            on_tree: false,
            z_dirty: false,
        }
    }
}

/// Per-peer states, in the order in which the peers came.
pub type BloomsView = Seq<(PublicKey, BloomInfoView)>;

/// The view of one state.
pub open spec fn info_view() -> spec_fn(BloomInfo) -> BloomInfoView {
    |i: BloomInfo| i@
}

/// Manages bloom filters for all peers.
pub struct Blooms {
    pub blooms: KeyTable<PublicKey, BloomInfo>,
}

impl View for Blooms {
    type V = BloomsView;

    open spec fn view(&self) -> BloomsView {
        mapped(self.blooms@, info_view())
    }
}

/// After how many maintenance rounds an unchanged filter is sent again.
pub const RESEND_ROUNDS: u16 = 3600;

/// One state per peer, and resend counters below the limit.
pub open spec fn blooms_wf(b: BloomsView) -> bool {
    &&& distinct(b)
    &&& forall|i: int| 0 <= i < b.len() ==> (#[trigger] b[i]).1.seq < RESEND_ROUNDS
}

/// Whether a peer is a neighbour in the tree: our parent, or a child of ours.
pub open spec fn is_neighbour(
    peer: PublicKey,
    self_key: PublicKey,
    self_parent: PublicKey,
    parents: Seq<(PublicKey, PublicKey)>,
) -> bool {
    self_parent == peer || get(parents, peer) == Some(self_key)
}

/// A peer's state after its place in the tree was looked at again: a peer that left the tree
/// is sent a blank filter.
pub open spec fn refit(i: BloomInfoView, on: bool) -> BloomInfoView {
    BloomInfoView {
        on_tree: on,
        send: if i.on_tree && !on {
            Set::empty()
        } else {
            i.send
        },
        ..i
    }
}

/// All states after every peer's place in the tree was looked at again.
pub open spec fn refitted(
    b: BloomsView,
    self_key: PublicKey,
    self_parent: PublicKey,
    parents: Seq<(PublicKey, PublicKey)>,
) -> BloomsView {
    Seq::new(
        b.len(),
        |i: int| (b[i].0, refit(b[i].1, is_neighbour(b[i].0, self_key, self_parent, parents))),
    )
}

/// The peers that left the tree, with the blank filter that each is sent.
pub open spec fn left_tree(
    b: BloomsView,
    self_key: PublicKey,
    self_parent: PublicKey,
    parents: Seq<(PublicKey, PublicKey)>,
) -> Seq<(PublicKey, Set<int>)>
    decreases b.len(),
{
    if b.len() == 0 {
        Seq::empty()
    } else {
        let rest = left_tree(b.drop_last(), self_key, self_parent, parents);
        let (k, i) = b.last();
        if i.on_tree && !is_neighbour(k, self_key, self_parent, parents) {
            rest.push((k, Set::empty()))
        } else {
            rest
        }
    }
}

/// The filter that covers our own key and whatever is behind the tree neighbours other than
/// `key`.
pub open spec fn covering(b: BloomsView, key: PublicKey, own: Set<int>) -> Set<int> {
    Set::new(
        |x: int|
            own.contains(x) || exists|i: int|
                #![trigger b[i]]
                0 <= i < b.len() && b[i].1.on_tree && b[i].0 != key && b[i].1.recv.contains(x),
    )
}

/// The filter that a peer is to be sent: the covering one, together with the bits that it was
/// sent before if those are kept.
pub open spec fn next_filter(b: BloomsView, key: PublicKey, own: Set<int>, keep: bool) -> Set<int> {
    let base = covering(b, key, own);
    if keep {
        base.union(get(b, key)->0.send)
    } else {
        base
    }
}

/// A peer's state after the filter to be sent to it was computed.
pub open spec fn next_info(
    b: BloomsView,
    key: PublicKey,
    own: Set<int>,
    keep: bool,
) -> BloomInfoView {
    let i = get(b, key)->0;
    let next = next_filter(b, key, own, keep);
    BloomInfoView {
        send: next,
        z_dirty: keep && (i.z_dirty || next != covering(b, key, own)),
        ..i
    }
}

/// A maintenance step for one tree neighbour: the states after it, and what is sent, if
/// anything. The filter is sent if it is new, or if it was not sent for long.
pub open spec fn maintain_one(b: BloomsView, key: PublicKey, own: Set<int>) -> (
    BloomsView,
    Option<Set<int>>,
) {
    let i = get(b, key)->0;
    let n = next_info(b, key, own, !i.z_dirty);
    let due = n.send != i.send || i.seq + 1 >= RESEND_ROUNDS;
    let seq = if due {
        0u16
    } else {
        (i.seq + 1) as u16
    };
    (
        put(b, key, BloomInfoView { seq, ..n }),
        if due {
            Some(n.send)
        } else {
            None
        },
    )
}

/// Maintenance steps for the first `n` of the peers in `keys`, one after the other.
pub open spec fn maintain_upto(b: BloomsView, keys: Seq<PublicKey>, own: Set<int>, n: nat) -> (
    BloomsView,
    Seq<(PublicKey, Set<int>)>,
)
    decreases n,
{
    if n == 0 {
        (b, Seq::empty())
    } else {
        let (mid, sent) = maintain_upto(b, keys, own, (n - 1) as nat);
        let (end, one) = maintain_one(mid, keys[n - 1], own);
        (
            end,
            match one {
                Some(f) => sent.push((keys[n - 1], f)),
                None => sent,
            },
        )
    }
}

/// The tree neighbours.
pub open spec fn tree_keys(b: BloomsView) -> Seq<PublicKey>
    decreases b.len(),
{
    if b.len() == 0 {
        Seq::empty()
    } else if b.last().1.on_tree {
        tree_keys(b.drop_last()).push(b.last().0)
    } else {
        tree_keys(b.drop_last())
    }
}

/// A whole maintenance round: the states after it, and what is sent to whom.
pub open spec fn maintained(
    b: BloomsView,
    self_key: PublicKey,
    self_parent: PublicKey,
    parents: Seq<(PublicKey, PublicKey)>,
    own: Set<int>,
) -> (BloomsView, Seq<(PublicKey, Set<int>)>) {
    let fixed = refitted(b, self_key, self_parent, parents);
    let blank = left_tree(b, self_key, self_parent, parents);
    let keys = tree_keys(fixed);
    let (end, sent) = maintain_upto(fixed, keys, own, keys.len());
    (end, blank + sent)
}

/// The tree neighbours, other than `from`, whose filter may hold the key with the bits `bits`.
pub open spec fn targets(b: BloomsView, from: PublicKey, bits: Set<int>) -> Seq<PublicKey>
    decreases b.len(),
{
    if b.len() == 0 {
        Seq::empty()
    } else {
        let rest = targets(b.drop_last(), from, bits);
        let (k, i) = b.last();
        if i.on_tree && k != from && bits.subset_of(i.recv) {
            rest.push(k)
        } else {
            rest
        }
    }
}

/// How many tree neighbours have a filter that may hold the key with the bits `bits`.
pub open spec fn matching(b: BloomsView, bits: Set<int>) -> nat
    decreases b.len(),
{
    if b.len() == 0 {
        0
    } else if b.last().1.on_tree && bits.subset_of(b.last().1.recv) {
        matching(b.drop_last(), bits) + 1
    } else {
        matching(b.drop_last(), bits)
    }
}

/// What a list of filters for peers holds.
pub open spec fn sent_view(v: Seq<(PublicKey, BloomFilter)>) -> Seq<(PublicKey, Set<int>)> {
    Seq::new(v.len(), |i: int| (v[i].0, v[i].1@))
}

proof fn lemma_sent_push(v: Seq<(PublicKey, BloomFilter)>, k: PublicKey, f: BloomFilter)
    ensures
        sent_view(v.push((k, f))) == sent_view(v).push((k, f@)),
{
    assert(sent_view(v.push((k, f))) =~= sent_view(v).push((k, f@)));
}

impl Blooms {
    /// The manager's invariant.
    pub open spec fn wf(&self) -> bool {
        blooms_wf(self@)
    }

    /// A manager without peers.
    pub fn new() -> (r: Self)
        ensures
            r.wf(),
            r@ == Seq::<(PublicKey, BloomInfoView)>::empty(),
    {
        let r = Blooms { blooms: KeyTable::new() };
        assert(r@ =~= Seq::empty());
        r
    }

    /// Whether a peer is on the spanning tree.
    pub fn is_on_tree(&self, key: &PublicKey) -> (r: bool)
        ensures
            r == (get(self@, *key) matches Some(i) && i.on_tree),
    {
        proof {
            lemma_mapped_find(self.blooms@, info_view(), *key);
        }
        match self.blooms.get(key) {
            Some(info) => info.on_tree,
            None => false,
        }
    }

    /// Applies the bloom transform to a key.
    pub fn x_key<T: KeyTransform>(&self, key: &PublicKey, transform: &T) -> (r: PublicKey)
        ensures
            r == transform.transformed(*key),
    {
        transform.apply(key)
    }

    /// Adds bloom info for a new peer.
    pub fn add_info(&mut self, key: PublicKey)
        ensures
            final(self)@ == (if has_key(old(self)@, key) {
                old(self)@
            } else {
                put(old(self)@, key, fresh_info())
            }),
            old(self).wf() ==> final(self).wf(),
    {
        proof {
            lemma_mapped_find(self.blooms@, info_view(), key);
            lemma_put(self@, key, fresh_info());
        }
        if !self.blooms.contains_key(&key) {
            let info = BloomInfo::new();
            proof {
                lemma_mapped_put(self.blooms@, info_view(), key, info);
            }
            self.blooms.insert(key, info);
        }
    }

    /// Removes bloom info for a disconnected peer.
    pub fn remove_info(&mut self, key: &PublicKey)
        ensures
            final(self)@ == del(old(self)@, *key),
            old(self).wf() ==> final(self).wf(),
    {
        proof {
            lemma_mapped_del(self.blooms@, info_view(), *key);
            lemma_find(self@, *key);
            if self.wf() {
                crate::table::lemma_del(self@, *key);
            }
        }
        let _ = self.blooms.remove(key);
    }

    /// Handles receiving a bloom filter from a peer.
    pub fn handle_bloom(&mut self, peer_key: &PublicKey, filter: BloomFilter)
        ensures
            final(self)@ == (match get(old(self)@, *peer_key) {
                Some(i) => put(old(self)@, *peer_key, BloomInfoView { recv: filter@, ..i }),
                None => old(self)@,
            }),
            old(self).wf() ==> final(self).wf(),
    {
        let ghost f = info_view();
        proof {
            lemma_mapped_find(self.blooms@, f, *peer_key);
        }
        match self.blooms.position(peer_key) {
            Some(at) => {
                let ghost e = self.blooms@;
                let ghost i = e[at as int].1@;
                let ghost n = BloomInfoView { recv: filter@, ..i };
                self.blooms.value_at_mut(at).recv = filter;
                proof {
                    lemma_put(old(self)@, *peer_key, n);
                    assert(self@ =~= old(self)@.update(at as int, (*peer_key, n)));
                }
            },
            None => {},
        }
    }

    /// Updates the on-tree status of all peers from the current tree state: our parent is on
    /// the tree, and so are our children. Returns the peers that left the tree, with a blank
    /// filter for each.
    pub fn fix_on_tree(
        &mut self,
        self_key: &PublicKey,
        self_parent: &PublicKey,
        parents: &KeyTable<PublicKey, PublicKey>,
    ) -> (to_send: Vec<(PublicKey, BloomFilter)>)
        ensures
            final(self)@ == refitted(old(self)@, *self_key, *self_parent, parents@),
            sent_view(to_send@) == left_tree(old(self)@, *self_key, *self_parent, parents@),
            old(self).wf() ==> final(self).wf(),
    {
        let mut to_send: Vec<(PublicKey, BloomFilter)> = Vec::new();
        let ghost start = self@;
        let ghost goal = refitted(start, *self_key, *self_parent, parents@);
        let mut i: usize = 0;
        let n: usize = self.blooms.len();
        assert(sent_view(to_send@) =~= Seq::empty());
        assert(start.take(0) =~= Seq::empty());
        while i < n
            invariant
                i <= n,
                n == self.blooms@.len(),
                n == start.len(),
                goal == refitted(start, *self_key, *self_parent, parents@),
                forall|j: int| 0 <= j < i ==> self@[j] == goal[j],
                forall|j: int| i <= j < n ==> self@[j] == start[j],
                sent_view(to_send@) == left_tree(
                    start.take(i as int),
                    *self_key,
                    *self_parent,
                    parents@,
                ),
            decreases n - i,
        {
            let pk = self.blooms.key_at(i);
            assert(self@[i as int] == start[i as int]);
            let on: bool = if key_eq(self_parent, &pk) {
                true
            } else {
                match parents.get(&pk) {
                    Some(parent) => key_eq(parent, self_key),
                    None => false,
                }
            };
            assert(on == is_neighbour(pk, *self_key, *self_parent, parents@));
            let ghost before = self@;
            let info = self.blooms.value_at_mut(i);
            let was_on: bool = info.on_tree;
            info.on_tree = on;
            if was_on && !on {
                let blank = BloomFilter::new();
                info.send = blank.clone();
                proof {
                    lemma_sent_push(to_send@, pk, blank);
                }
                to_send.push((pk, blank));
            }
            proof {
                assert(start.take(i + 1).drop_last() =~= start.take(i as int));
                assert(start.take(i + 1).last() == start[i as int]);
                assert(self@[i as int] == goal[i as int]);
                assert forall|j: int| 0 <= j < n && j != i implies self@[j] == before[j] by {}
            }
            i += 1;
        }
        proof {
            assert(start.take(n as int) =~= start);
            assert(self@ =~= goal);
            if blooms_wf(start) {
                assert forall|i: int, j: int| 0 <= i < j < goal.len() implies goal[i].0 != goal[j].0 by {
                    assert(start[i].0 != start[j].0);
                }
                assert forall|i: int| 0 <= i < goal.len() implies (#[trigger] goal[i]).1.seq
                    < RESEND_ROUNDS by {
                    assert(start[i].1.seq < RESEND_ROUNDS);
                }
            }
        }
        to_send
    }

    /// Computes the filter that covers our own key and whatever is behind the tree neighbours
    /// other than `key`.
    fn cover(&self, key: &PublicKey, own: &PublicKey) -> (b: BloomFilter)
        ensures
            b@ == covering(self@, *key, key_bits(own@)),
    {
        let mut b = BloomFilter::new();
        b.add(own.as_slice());
        let mut i: usize = 0;
        assert(b@ =~= key_bits(own@));
        while i < self.blooms.len()
            invariant
                i <= self.blooms@.len(),
                forall|x: int| #[trigger] b@.contains(x) <==> key_bits(own@).contains(x) || exists|j: int|
                    #![trigger self@[j]]
                    0 <= j < i && self@[j].1.on_tree && self@[j].0 != *key
                        && self@[j].1.recv.contains(x),
            decreases self.blooms@.len() - i,
        {
            let k = self.blooms.key_at(i);
            let info = self.blooms.value_at(i);
            let ghost before = b@;
            assert(self@[i as int] == (k, info@));
            if info.on_tree && !key_eq(&k, key) {
                b.merge(&info.recv);
            }
            assert forall|x: int| #[trigger] b@.contains(x) implies (key_bits(own@).contains(x)
                || exists|j: int|
                #![trigger self@[j]]
                0 <= j < i + 1 && self@[j].1.on_tree && self@[j].0 != *key
                    && self@[j].1.recv.contains(x)) by {
                if !before.contains(x) {
                    assert(self@[i as int].1.recv.contains(x));
                }
            }
            i += 1;
        }
        assert(b@ =~= covering(self@, *key, key_bits(own@)));
        b
    }

    /// Computes the bloom filter we should send to a given peer.
    /// Returns (filter, is_new).
    pub fn get_bloom_for<T: KeyTransform>(
        &mut self,
        key: &PublicKey,
        our_key: &PublicKey,
        keep_ones: bool,
        transform: &T,
    ) -> (r: (BloomFilter, bool))
        requires
            has_key(old(self)@, *key),
        ensures
            ({
                let own = key_bits(transform.transformed(*our_key)@);
                &&& final(self)@ == put(
                    old(self)@,
                    *key,
                    next_info(old(self)@, *key, own, keep_ones),
                )
                &&& r.0@ == next_filter(old(self)@, *key, own, keep_ones)
                &&& r.1 == (r.0@ != get(old(self)@, *key)->0.send)
            }),
            old(self).wf() ==> final(self).wf(),
    {
        let xform = self.x_key(our_key, transform);
        let ghost own = key_bits(xform@);
        let ghost start = self@;
        let mut b = self.cover(key, &xform);
        proof {
            lemma_mapped_find(self.blooms@, info_view(), *key);
            lemma_find(start, *key);
        }
        let at: usize = match self.blooms.position(key) {
            Some(at) => at,
            None => 0,
        };
        let info = self.blooms.value_at_mut(at);
        let ghost i = info@;
        assert(get(start, *key) == Some(i));
        if keep_ones {
            if !info.z_dirty {
                let c = b.clone();
                b.merge(&info.send);
                if !b.equal(&c) {
                    info.z_dirty = true;
                }
            } else {
                b.merge(&info.send);
            }
        } else {
            info.z_dirty = false;
        }
        assert(b@ == next_filter(start, *key, own, keep_ones));
        let is_new = !b.equal(&info.send);
        if is_new {
            info.send = b.clone();
        }
        proof {
            let n = next_info(start, *key, own, keep_ones);
            lemma_put(start, *key, n);
            assert(self@ =~= start.update(at as int, (*key, n)));
        }
        (b, is_new)
    }

    /// The filter that a peer was sent last (for retransmission).
    pub fn get_send_bloom(&self, key: &PublicKey) -> (r: Option<BloomFilter>)
        ensures
            match r {
                Some(f) => get(self@, *key) matches Some(i) && f@ == i.send,
                None => get(self@, *key) is None,
            },
    {
        proof {
            lemma_mapped_find(self.blooms@, info_view(), *key);
        }
        match self.blooms.get(key) {
            Some(info) => Some(info.send.clone()),
            None => None,
        }
    }

    fn on_tree_keys(&self) -> (r: Vec<PublicKey>)
        ensures
            r@ == tree_keys(self@),
    {
        let mut r: Vec<PublicKey> = Vec::new();
        let mut i: usize = 0;
        assert(self@.take(0) =~= Seq::empty());
        while i < self.blooms.len()
            invariant
                i <= self.blooms@.len(),
                r@ == tree_keys(self@.take(i as int)),
            decreases self.blooms@.len() - i,
        {
            assert(self@.take(i + 1).drop_last() =~= self@.take(i as int));
            if self.blooms.value_at(i).on_tree {
                r.push(self.blooms.key_at(i));
            }
            i += 1;
        }
        assert(self@.take(i as int) =~= self@);
        r
    }

    /// Runs periodic maintenance: updates the on-tree status and computes new filters.
    /// Returns the (peer, filter) pairs that need to be sent.
    pub fn do_maintenance<T: KeyTransform>(
        &mut self,
        self_key: &PublicKey,
        self_parent: &PublicKey,
        parents: &KeyTable<PublicKey, PublicKey>,
        transform: &T,
    ) -> (to_send: Vec<(PublicKey, BloomFilter)>)
        requires
            old(self).wf(),
        ensures
            final(self).wf(),
            (final(self)@, sent_view(to_send@)) == maintained(
                old(self)@,
                *self_key,
                *self_parent,
                parents@,
                key_bits(transform.transformed(*self_key)@),
            ),
    {
        let ghost own = key_bits(transform.transformed(*self_key)@);
        let mut to_send = self.fix_on_tree(self_key, self_parent, parents);
        let ghost fixed = self@;
        let ghost blank = sent_view(to_send@);
        let keys = self.on_tree_keys();
        proof {
            lemma_tree_keys(fixed);
        }
        let mut n: usize = 0;
        assert(blank + Seq::<(PublicKey, Set<int>)>::empty() =~= blank);
        while n < keys.len()
            invariant
                n <= keys@.len(),
                self.wf(),
                own == key_bits(transform.transformed(*self_key)@),
                forall|j: int| 0 <= j < keys@.len() ==> has_key(fixed, #[trigger] keys@[j]),
                forall|k: PublicKey| has_key(self@, k) == has_key(fixed, k),
                ({
                    let (mid, sent) = maintain_upto(fixed, keys@, own, n as nat);
                    self@ == mid && sent_view(to_send@) == blank + sent
                }),
            decreases keys@.len() - n,
        {
            let k = keys[n];
            let ghost mid = self@;
            let ghost sent = maintain_upto(fixed, keys@, own, n as nat).1;
            let ghost i = get(mid, k)->0;
            proof {
                assert(has_key(fixed, keys@[n as int]));
                lemma_mapped_find(self.blooms@, info_view(), k);
                lemma_find(mid, k);
            }
            let z_dirty: bool = match self.blooms.get(&k) {
                Some(info) => info.z_dirty,
                None => false,
            };
            let (bloom, is_new) = self.get_bloom_for(&k, self_key, !z_dirty, transform);
            let ghost step = self@;
            proof {
                lemma_put(mid, k, next_info(mid, k, own, !z_dirty));
                lemma_mapped_find(self.blooms@, info_view(), k);
                lemma_find(step, k);
            }
            let at: usize = match self.blooms.position(&k) {
                Some(at) => at,
                None => 0,
            };
            let info = self.blooms.value_at_mut(at);
            assert(get(step, k) == Some(info@));
            assert(info.seq == i.seq);
            assert(step[at as int].1.seq < RESEND_ROUNDS);
            info.seq = info.seq + 1;
            let due: bool = is_new || info.seq >= RESEND_ROUNDS;
            if due {
                info.seq = 0;
            }
            proof {
                let fin = maintain_one(mid, k, own).0;
                let ni = get(fin, k);
                let nn = next_info(mid, k, own, !z_dirty);
                let seq = if due {
                    0u16
                } else {
                    (i.seq + 1) as u16
                };
                let v = BloomInfoView { seq, ..nn };
                assert(fin == put(mid, k, v));
                assert(self@ =~= step.update(at as int, (k, v)));
                lemma_put(step, k, v);
                lemma_put(mid, k, v);
                assert(put(step, k, v) =~= put(mid, k, v)) by {
                    lemma_find(mid, k);
                    lemma_find_at(step, k, find(mid, k));
                }
                assert(self@ == fin);
                assert forall|q: PublicKey| has_key(self@, q) == has_key(fixed, q) by {
                    assert(get(self@, q) is Some == has_key(self@, q));
                    assert(get(mid, q) is Some == has_key(mid, q));
                }
            }
            if due {
                proof {
                    lemma_sent_push(to_send@, k, bloom);
                    assert((blank + sent).push((k, bloom@)) =~= blank + sent.push((k, bloom@)));
                }
                to_send.push((k, bloom));
            }
            n += 1;
        }
        to_send
    }

    /// Determines which peers should receive a multicast packet: the tree neighbours, other
    /// than the one it came from, whose filter matches the destination.
    pub fn get_multicast_targets<T: KeyTransform>(
        &self,
        from_key: &PublicKey,
        to_key: &PublicKey,
        transform: &T,
    ) -> (r: Vec<PublicKey>)
        ensures
            r@ == targets(self@, *from_key, key_bits(transform.transformed(*to_key)@)),
    {
        let xform = self.x_key(to_key, transform);
        let mut r: Vec<PublicKey> = Vec::new();
        let mut i: usize = 0;
        assert(self@.take(0) =~= Seq::empty());
        while i < self.blooms.len()
            invariant
                i <= self.blooms@.len(),
                xform == transform.transformed(*to_key),
                r@ == targets(self@.take(i as int), *from_key, key_bits(xform@)),
            decreases self.blooms@.len() - i,
        {
            assert(self@.take(i + 1).drop_last() =~= self@.take(i as int));
            let k = self.blooms.key_at(i);
            let info = self.blooms.value_at(i);
            assert(self@[i as int] == (k, info@));
            if info.on_tree && !key_eq(&k, from_key) && info.recv.test(xform.as_slice()) {
                r.push(k);
            }
            i += 1;
        }
        assert(self@.take(i as int) =~= self@);
        r
    }

    /// Counts how many tree neighbours' filters match a key that was transformed already.
    pub fn count_on_tree_targets_for_xkey(&self, xformed_key: &PublicKey) -> (n: usize)
        ensures
            n == matching(self@, key_bits(xformed_key@)),
    {
        let mut n: usize = 0;
        let mut i: usize = 0;
        assert(self@.take(0) =~= Seq::empty());
        while i < self.blooms.len()
            invariant
                i <= self.blooms@.len(),
                n <= i,
                n == matching(self@.take(i as int), key_bits(xformed_key@)),
            decreases self.blooms@.len() - i,
        {
            assert(self@.take(i + 1).drop_last() =~= self@.take(i as int));
            let info = self.blooms.value_at(i);
            assert(self@[i as int].1 == info@);
            if info.on_tree && info.recv.test(xformed_key.as_slice()) {
                n += 1;
            }
            i += 1;
        }
        assert(self@.take(i as int) =~= self@);
        n
    }
}

/// Tree neighbours are peers.
proof fn lemma_tree_keys(b: BloomsView)
    ensures
        forall|j: int| 0 <= j < tree_keys(b).len() ==> has_key(b, #[trigger] tree_keys(b)[j]),
    decreases b.len(),
{
    if b.len() > 0 {
        let d = b.drop_last();
        lemma_tree_keys(d);
        assert forall|j: int| 0 <= j < tree_keys(b).len() implies has_key(
            b,
            #[trigger] tree_keys(b)[j],
        ) by {
            let k = tree_keys(b)[j];
            lemma_find(b, k);
            if j < tree_keys(d).len() {
                assert(has_key(d, tree_keys(d)[j]));
                lemma_find(d, k);
                assert(b[find(d, k)] == d[find(d, k)]);
            } else {
                assert(b[b.len() - 1].0 == k);
            }
            if find(b, k) == b.len() {
                let at = if j < tree_keys(d).len() {
                    find(d, k)
                } else {
                    b.len() - 1
                };
                assert(b[at].0 != k);
            }
        }
    }
}

// ---------------------------------------------------------------------------
// Laws
// ---------------------------------------------------------------------------

/// A filter for a peer covers us and everyone else: our own bits are in it, and so is every bit of
/// the filter of every other tree neighbour, so that each key found in one of those is found in
/// it. Without kept bits there is nothing else in it; in particular the peer is not told what
/// only itself told us. Kept bits are those that it was sent before.
pub proof fn lemma_filter_covers_the_others(
    b: BloomsView,
    key: PublicKey,
    own: Set<int>,
    keep: bool,
)
    requires
        has_key(b, key),
    ensures
        own.subset_of(next_filter(b, key, own, keep)),
        forall|i: int|
            0 <= i < b.len() && (#[trigger] b[i]).1.on_tree && b[i].0 != key
                ==> b[i].1.recv.subset_of(next_filter(b, key, own, keep)),
        forall|i: int, bits: Set<int>|
            0 <= i < b.len() && (#[trigger] b[i]).1.on_tree && b[i].0 != key
                && #[trigger] bits.subset_of(b[i].1.recv) ==> bits.subset_of(
                next_filter(b, key, own, keep),
            ),
        forall|x: int| #[trigger]
            next_filter(b, key, own, keep).contains(x) ==> own.contains(x) || (exists|i: int|
                0 <= i < b.len() && (#[trigger] b[i]).1.on_tree && b[i].0 != key
                    && b[i].1.recv.contains(x)) || (keep && get(b, key)->0.send.contains(x)),
        keep ==> get(b, key)->0.send.subset_of(next_filter(b, key, own, keep)),
{
}

/// Lookups go exactly where they may be answered: to the tree neighbours other than the one they
/// came from, in whose filter all bits of the key are set.
pub proof fn lemma_targets_are_those_that_match(
    b: BloomsView,
    from: PublicKey,
    bits: Set<int>,
    k: PublicKey,
)
    ensures
        targets(b, from, bits).contains(k) <==> k != from && exists|i: int|
            0 <= i < b.len() && (#[trigger] b[i]).0 == k && b[i].1.on_tree && bits.subset_of(
                b[i].1.recv,
            ),
        distinct(b) ==> targets(b, from, bits).no_duplicates(),
    decreases b.len(),
{
    let t = targets(b, from, bits);
    if b.len() > 0 {
        let d = b.drop_last();
        let td = targets(d, from, bits);
        lemma_targets_are_those_that_match(d, from, bits, k);
        assert(b[b.len() - 1] == b.last());
        if t.contains(k) {
            let j = choose|j: int| 0 <= j < t.len() && t[j] == k;
            if j < td.len() {
                assert(td[j] == k);
                let i = choose|i: int|
                    0 <= i < d.len() && (#[trigger] d[i]).0 == k && d[i].1.on_tree && bits.subset_of(
                        d[i].1.recv,
                    );
                assert(b[i] == d[i]);
            }
        }
        if k != from && exists|i: int|
            0 <= i < b.len() && (#[trigger] b[i]).0 == k && b[i].1.on_tree && bits.subset_of(
                b[i].1.recv,
            ) {
            let i = choose|i: int|
                0 <= i < b.len() && (#[trigger] b[i]).0 == k && b[i].1.on_tree && bits.subset_of(
                    b[i].1.recv,
                );
            if i < d.len() {
                assert(d[i] == b[i]);
                let j = choose|j: int| 0 <= j < td.len() && td[j] == k;
                assert(t[j] == k);
            } else {
                assert(t[t.len() - 1] == k);
            }
        }
        if distinct(b) {
            assert(distinct(d)) by {
                assert forall|i: int, j: int| 0 <= i < j < d.len() implies d[i].0 != d[j].0 by {
                    assert(b[i].0 != b[j].0);
                }
            }
            if t.len() > td.len() {
                lemma_targets_are_those_that_match(d, from, bits, b.last().0);
                assert forall|i: int, j: int| 0 <= i < t.len() && 0 <= j < t.len() && i != j implies t[i]
                    != t[j] by {
                    if td.contains(b.last().0) {
                        let m = choose|m: int|
                            0 <= m < d.len() && (#[trigger] d[m]).0 == b.last().0 && d[m].1.on_tree
                                && bits.subset_of(d[m].1.recv);
                        assert(b[m].0 != b[b.len() - 1].0);
                    }
                    if i < td.len() {
                        assert(td.contains(td[i]));
                    }
                    if j < td.len() {
                        assert(td.contains(td[j]));
                    }
                }
            }
        }
    } else if t.contains(k) {
        let j = choose|j: int| 0 <= j < t.len() && t[j] == k;
    }
}

/// As many tree neighbours match as a lookup goes to, and the one it came from if that matches too.
pub proof fn lemma_matching_counts_targets(b: BloomsView, from: PublicKey, bits: Set<int>)
    requires
        distinct(b),
    ensures
        matching(b, bits) == targets(b, from, bits).len() + (if get(b, from) matches Some(i)
            && i.on_tree && bits.subset_of(i.recv) {
            1int
        } else {
            0
        }),
    decreases b.len(),
{
    if b.len() > 0 {
        let d = b.drop_last();
        let (lk, li) = b.last();
        assert(distinct(d)) by {
            assert forall|i: int, j: int| 0 <= i < j < d.len() implies d[i].0 != d[j].0 by {
                assert(b[i].0 != b[j].0);
            }
        }
        lemma_matching_counts_targets(d, from, bits);
        assert(!has_key(d, lk)) by {
            lemma_find(d, lk);
            if has_key(d, lk) {
                assert(b[find(d, lk)].0 != b[b.len() - 1].0);
            }
        }
        assert(b =~= put(d, lk, li));
        lemma_put(d, lk, li);
        assert(get(put(d, lk, li), from) == (if from == lk {
            Some(li)
        } else {
            get(d, from)
        }));
    } else {
        lemma_find(b, from);
    }
}

/// The tree neighbours are those marked as such.
proof fn lemma_tree_keys_are(b: BloomsView, k: PublicKey)
    ensures
        tree_keys(b).contains(k) <==> exists|i: int|
            0 <= i < b.len() && (#[trigger] b[i]).0 == k && b[i].1.on_tree,
        distinct(b) ==> tree_keys(b).no_duplicates(),
    decreases b.len(),
{
    let t = tree_keys(b);
    if b.len() > 0 {
        let d = b.drop_last();
        let td = tree_keys(d);
        lemma_tree_keys_are(d, k);
        assert(b[b.len() - 1] == b.last());
        if t.contains(k) {
            let j = choose|j: int| 0 <= j < t.len() && t[j] == k;
            if j < td.len() {
                assert(td[j] == k);
                let i = choose|i: int| 0 <= i < d.len() && (#[trigger] d[i]).0 == k && d[i].1.on_tree;
                assert(b[i] == d[i]);
            }
        }
        if exists|i: int| 0 <= i < b.len() && (#[trigger] b[i]).0 == k && b[i].1.on_tree {
            let i = choose|i: int| 0 <= i < b.len() && (#[trigger] b[i]).0 == k && b[i].1.on_tree;
            if i < d.len() {
                assert(d[i] == b[i]);
                let j = choose|j: int| 0 <= j < td.len() && td[j] == k;
                assert(t[j] == k);
            } else {
                assert(t[t.len() - 1] == k);
            }
        }
        if distinct(b) {
            assert forall|i: int, j: int| 0 <= i < j < d.len() implies d[i].0 != d[j].0 by {
                assert(b[i].0 != b[j].0);
            }
            if t.len() > td.len() {
                lemma_tree_keys_are(d, b.last().0);
                assert forall|i: int, j: int| 0 <= i < t.len() && 0 <= j < t.len() && i != j implies t[i]
                    != t[j] by {
                    if td.contains(b.last().0) {
                        let m = choose|m: int|
                            0 <= m < d.len() && (#[trigger] d[m]).0 == b.last().0 && d[m].1.on_tree;
                        assert(b[m].0 != b[b.len() - 1].0);
                    }
                    if i < td.len() {
                        assert(td.contains(td[i]));
                    }
                    if j < td.len() {
                        assert(td.contains(td[j]));
                    }
                }
            }
        }
    } else if t.contains(k) {
        let j = choose|j: int| 0 <= j < t.len() && t[j] == k;
    }
}

/// Whether two lists of states have the same peers, with the same filters received and the same
/// places in the tree.
spec fn same_received(a: BloomsView, b: BloomsView) -> bool {
    &&& a.len() == b.len()
    &&& forall|i: int|
        0 <= i < a.len() ==> (#[trigger] a[i]).0 == b[i].0 && a[i].1.recv == b[i].1.recv
            && a[i].1.on_tree == b[i].1.on_tree
}

proof fn lemma_same_covering(a: BloomsView, b: BloomsView, key: PublicKey, own: Set<int>)
    requires
        same_received(a, b),
    ensures
        covering(a, key, own) == covering(b, key, own),
{
    assert forall|x: int| covering(a, key, own).contains(x) == covering(b, key, own).contains(x) by {
        if covering(a, key, own).contains(x) && !own.contains(x) {
            let i = choose|i: int|
                #![trigger a[i]]
                0 <= i < a.len() && a[i].1.on_tree && a[i].0 != key && a[i].1.recv.contains(x);
            assert(b[i].1.recv.contains(x));
        }
        if covering(b, key, own).contains(x) && !own.contains(x) {
            let i = choose|i: int|
                #![trigger b[i]]
                0 <= i < b.len() && b[i].1.on_tree && b[i].0 != key && b[i].1.recv.contains(x);
            assert(a[i].1.recv.contains(x));
        }
    }
    assert(covering(a, key, own) =~= covering(b, key, own));
}

/// What a maintenance step leaves a neighbour with, and what it is sent.
spec fn step_done(
    b: BloomsView,
    own: Set<int>,
    k: PublicKey,
    i: BloomInfoView,
    sent: Seq<(PublicKey, Set<int>)>,
) -> bool {
    let was = get(b, k)->0;
    let due = i.send != was.send || was.seq + 1 >= RESEND_ROUNDS;
    &&& i.send == next_filter(b, k, own, !was.z_dirty)
    &&& i.z_dirty == (!was.z_dirty && i.send != covering(b, k, own))
    &&& i.seq == (if due {
        0u16
    } else {
        (was.seq + 1) as u16
    })
    &&& due ==> sent.contains((k, i.send))
}

proof fn lemma_maintain_upto(b: BloomsView, keys: Seq<PublicKey>, own: Set<int>, n: nat)
    requires
        distinct(b),
        keys.no_duplicates(),
        forall|j: int| 0 <= j < keys.len() ==> has_key(b, #[trigger] keys[j]),
        n <= keys.len(),
    ensures
        ({
            let (mid, sent) = maintain_upto(b, keys, own, n);
            &&& distinct(mid)
            &&& same_received(mid, b)
            &&& forall|k: PublicKey| has_key(mid, k) == #[trigger] has_key(b, k)
            &&& forall|j: int|
                n <= j < keys.len() ==> get(mid, #[trigger] keys[j]) == get(b, keys[j])
            &&& forall|k: PublicKey|
                !keys.contains(k) ==> #[trigger] get(mid, k) == get(b, k)
            &&& forall|j: int|
                0 <= j < n ==> step_done(b, own, #[trigger] keys[j], get(mid, keys[j])->0, sent)
            &&& forall|m: int|
                0 <= m < sent.len() ==> keys.contains((#[trigger] sent[m]).0) && sent[m].1 == get(
                    mid,
                    sent[m].0,
                )->0.send && (sent[m].1 != get(b, sent[m].0)->0.send || get(b, sent[m].0)->0.seq + 1
                    >= RESEND_ROUNDS)
        }),
    decreases n,
{
    if n > 0 {
        let p = (n - 1) as nat;
        lemma_maintain_upto(b, keys, own, p);
        let (mid, sent) = maintain_upto(b, keys, own, p);
        let (end, all) = maintain_upto(b, keys, own, n);
        let k = keys[n - 1];
        let i = get(b, k)->0;
        assert(get(mid, keys[n - 1]) == get(b, keys[n - 1]));
        assert(has_key(b, keys[n - 1]));
        lemma_same_covering(mid, b, k, own);
        let v = get(end, k)->0;
        lemma_find(mid, k);
        let ni = next_info(mid, k, own, !i.z_dirty);
        let w = BloomInfoView {
            seq: if ni.send != i.send || i.seq + 1 >= RESEND_ROUNDS {
                0u16
            } else {
                (i.seq + 1) as u16
            },
            ..ni
        };
        assert(end == put(mid, k, w));
        lemma_put(mid, k, w);
        assert(get(end, k) == Some(w));
        assert forall|q: PublicKey| has_key(end, q) == #[trigger] has_key(b, q) by {
            assert(get(end, q) is Some == (q == k || get(mid, q) is Some));
            assert(has_key(mid, q) == has_key(b, q));
        }
        assert forall|j: int| n <= j < keys.len() implies get(end, #[trigger] keys[j]) == get(
            b,
            keys[j],
        ) by {
            assert(keys[j] != k);
            assert(get(mid, keys[j]) == get(b, keys[j]));
        }
        assert forall|q: PublicKey| !keys.contains(q) implies #[trigger] get(end, q) == get(b, q) by {
            assert(q != k);
            assert(get(mid, q) == get(b, q));
        }
        assert forall|j: int| 0 <= j < n implies step_done(
            b,
            own,
            #[trigger] keys[j],
            get(end, keys[j])->0,
            all,
        ) by {
            if j < p {
                assert(keys[j] != k);
                assert(step_done(b, own, keys[j], get(mid, keys[j])->0, sent));
                let x = (keys[j], get(end, keys[j])->0.send);
                if sent.contains(x) {
                    let m = choose|m: int| 0 <= m < sent.len() && sent[m] == x;
                    assert(all[m] == x);
                }
            } else if w.send != i.send || i.seq + 1 >= RESEND_ROUNDS {
                assert(all[all.len() - 1] == (k, w.send));
            }
        }
        assert forall|m: int| 0 <= m < all.len() implies keys.contains((#[trigger] all[m]).0)
            && all[m].1 == get(end, all[m].0)->0.send && (all[m].1 != get(b, all[m].0)->0.send || get(
            b,
            all[m].0,
        )->0.seq + 1 >= RESEND_ROUNDS) by {
            if m < sent.len() {
                assert(all[m] == sent[m]);
                if sent[m].0 == k {
                    lemma_not_sent_yet(b, keys, own, p, m, (n - 1) as int);
                }
            } else {
                assert(keys[n - 1] == k);
            }
        }
    } else {
        assert(same_received(b, b));
    }
}

proof fn lemma_not_sent_yet(
    b: BloomsView,
    keys: Seq<PublicKey>,
    own: Set<int>,
    n: nat,
    m: int,
    j: int,
)
    requires
        keys.no_duplicates(),
        n <= j < keys.len(),
        0 <= m < maintain_upto(b, keys, own, n).1.len(),
    ensures
        maintain_upto(b, keys, own, n).1[m].0 != keys[j],
    decreases n,
{
    if n > 0 {
        let (mid, sent) = maintain_upto(b, keys, own, (n - 1) as nat);
        if m < sent.len() {
            lemma_not_sent_yet(b, keys, own, (n - 1) as nat, m, j);
            assert(maintain_upto(b, keys, own, n).1[m] == sent[m]);
        } else {
            assert(keys[n - 1] != keys[j]);
        }
    }
}

proof fn lemma_left_tree_is(
    b: BloomsView,
    self_key: PublicKey,
    self_parent: PublicKey,
    parents: Seq<(PublicKey, PublicKey)>,
    i: int,
)
    requires
        0 <= i < b.len(),
        b[i].1.on_tree,
        !is_neighbour(b[i].0, self_key, self_parent, parents),
    ensures
        left_tree(b, self_key, self_parent, parents).contains((b[i].0, Set::empty())),
    decreases b.len(),
{
    let d = b.drop_last();
    let t = left_tree(b, self_key, self_parent, parents);
    let x = (b[i].0, Set::<int>::empty());
    if i < d.len() {
        lemma_left_tree_is(d, self_key, self_parent, parents, i);
        let td = left_tree(d, self_key, self_parent, parents);
        assert(d[i] == b[i]);
        let j = choose|j: int| 0 <= j < td.len() && td[j] == x;
        assert(t[j] == x);
    } else {
        assert(t[t.len() - 1] == x);
    }
}

/// After a maintenance round every neighbour in the tree, our parent or a child of ours, was told of
/// everything that can be reached through us: its filter holds our own bits and all bits of the
/// filters of the other neighbours. A filter that changed was sent. A peer that is no neighbour
/// any more was sent a blank filter, and what was received from peers is as before.
pub proof fn lemma_round_tells_the_neighbours(
    b: BloomsView,
    self_key: PublicKey,
    self_parent: PublicKey,
    parents: Seq<(PublicKey, PublicKey)>,
    own: Set<int>,
    i: int,
)
    requires
        distinct(b),
        0 <= i < b.len(),
    ensures
        ({
            let (end, sent) = maintained(b, self_key, self_parent, parents, own);
            let (k, was) = b[i];
            let on = self_parent == k || get(parents, k) == Some(self_key);
            &&& end.len() == b.len()
            &&& end[i].0 == k
            &&& end[i].1.recv == was.recv
            &&& end[i].1.on_tree == on
            &&& on ==> own.subset_of(end[i].1.send)
            &&& on ==> forall|j: int|
                0 <= j < b.len() && j != i && (#[trigger] end[j]).1.on_tree
                    ==> b[j].1.recv.subset_of(end[i].1.send)
            &&& on && end[i].1.send != was.send ==> sent.contains((k, end[i].1.send))
            &&& on && was.seq + 1 >= RESEND_ROUNDS ==> sent.contains((k, end[i].1.send))
            &&& !on && was.on_tree ==> end[i].1.send == Set::<int>::empty() && sent.contains(
                (k, Set::empty()),
            )
            &&& !on && !was.on_tree ==> end[i].1 == was
        }),
{
    let fixed = refitted(b, self_key, self_parent, parents);
    let blank = left_tree(b, self_key, self_parent, parents);
    let keys = tree_keys(fixed);
    let (end, later) = maintain_upto(fixed, keys, own, keys.len());
    let (whole, sent) = maintained(b, self_key, self_parent, parents, own);
    let (k, was) = b[i];
    assert(distinct(fixed)) by {
        assert forall|i: int, j: int| 0 <= i < j < fixed.len() implies fixed[i].0 != fixed[j].0 by {
            assert(b[i].0 != b[j].0);
        }
    }
    lemma_tree_keys(fixed);
    lemma_tree_keys_are(fixed, k);
    lemma_maintain_upto(fixed, keys, own, keys.len());
    assert(end[i].0 == fixed[i].0);
    lemma_entry(end, i);
    lemma_entry(fixed, i);
    let on = is_neighbour(k, self_key, self_parent, parents);
    if on {
        assert(fixed[i].0 == k && fixed[i].1.on_tree);
        let j = choose|j: int| 0 <= j < keys.len() && keys[j] == k;
        assert(step_done(fixed, own, keys[j], get(end, keys[j])->0, later));
        lemma_filter_covers_the_others(fixed, k, own, !fixed[i].1.z_dirty);
        assert forall|j: int|
            0 <= j < b.len() && j != i && (#[trigger] end[j]).1.on_tree implies b[j].1.recv.subset_of(
            end[i].1.send,
        ) by {
            assert(end[j].0 == fixed[j].0);
            assert(fixed[j].0 != k) by {
                if i < j {
                    assert(b[i].0 != b[j].0);
                } else {
                    assert(b[j].0 != b[i].0);
                }
            }
            assert(fixed[j].1.on_tree);
        }
        let x = (k, end[i].1.send);
        if later.contains(x) {
            let m = choose|m: int| 0 <= m < later.len() && later[m] == x;
            assert(sent[blank.len() + m] == x);
        }
    } else {
        if keys.contains(k) {
            let j = choose|j: int|
                0 <= j < fixed.len() && (#[trigger] fixed[j]).0 == k && fixed[j].1.on_tree;
            lemma_entry(fixed, j);
        }
        assert(get(end, k) == get(fixed, k));
        if was.on_tree {
            lemma_left_tree_is(b, self_key, self_parent, parents, i);
            let x = (k, Set::<int>::empty());
            let m = choose|m: int| 0 <= m < blank.len() && blank[m] == x;
            assert(sent[m] == x);
        }
    }
}

/// A neighbour in the tree is sent its filter in a round if and only if the filter changed or three
/// thousand six hundred rounds have passed since it was last sent; else it is sent nothing, and the
/// round is counted. A peer outside the tree is sent nothing unless it has just left it.
pub proof fn lemma_only_what_is_due_is_sent(
    b: BloomsView,
    self_key: PublicKey,
    self_parent: PublicKey,
    parents: Seq<(PublicKey, PublicKey)>,
    own: Set<int>,
    i: int,
)
    requires
        distinct(b),
        0 <= i < b.len(),
    ensures
        ({
            let (end, sent) = maintained(b, self_key, self_parent, parents, own);
            let (k, was) = b[i];
            let now = end[i].1;
            let on = self_parent == k || get(parents, k) == Some(self_key);
            let told = exists|m: int| 0 <= m < sent.len() && (#[trigger] sent[m]).0 == k;
            &&& on ==> (told <==> now.send != was.send || was.seq + 1 >= 3600)
            &&& on && told ==> now.seq == 0
            &&& on && !told ==> now.seq == was.seq + 1
            &&& !on ==> (told <==> was.on_tree)
            &&& forall|m: int|
                0 <= m < sent.len() && (#[trigger] sent[m]).0 == k ==> sent[m].1 == now.send
        }),
{
    let fixed = refitted(b, self_key, self_parent, parents);
    let blank = left_tree(b, self_key, self_parent, parents);
    let keys = tree_keys(fixed);
    let (end, later) = maintain_upto(fixed, keys, own, keys.len());
    let sent = blank + later;
    let (k, was) = b[i];
    assert(distinct(fixed)) by {
        assert forall|x: int, y: int| 0 <= x < y < fixed.len() implies fixed[x].0 != fixed[y].0 by {
            assert(b[x].0 != b[y].0);
        }
    }
    lemma_tree_keys(fixed);
    lemma_tree_keys_are(fixed, k);
    lemma_maintain_upto(fixed, keys, own, keys.len());
    lemma_round_tells_the_neighbours(b, self_key, self_parent, parents, own, i);
    assert(end[i].0 == fixed[i].0);
    lemma_entry(end, i);
    lemma_entry(fixed, i);
    let on = is_neighbour(k, self_key, self_parent, parents);
    assert forall|m: int| 0 <= m < blank.len() && (#[trigger] blank[m]).0 == k implies blank[m].1
        == Set::<int>::empty() && was.on_tree && !on by {
        lemma_who_left(b, self_key, self_parent, parents, m);
        let x = choose|x: int|
            0 <= x < b.len() && (#[trigger] b[x]).0 == k && b[x].1.on_tree && !is_neighbour(
                k,
                self_key,
                self_parent,
                parents,
            );
        lemma_entry(b, x);
        lemma_entry(b, i);
    }
    assert forall|m: int| 0 <= m < later.len() && (#[trigger] later[m]).0 == k implies on && later[m].1
        == end[i].1.send && (end[i].1.send != was.send || was.seq + 1 >= RESEND_ROUNDS) by {
        assert(keys.contains(later[m].0));
        let j = choose|j: int|
            0 <= j < fixed.len() && (#[trigger] fixed[j]).0 == k && fixed[j].1.on_tree;
        lemma_entry(fixed, j);
    }
    assert forall|m: int| 0 <= m < sent.len() && (#[trigger] sent[m]).0 == k implies sent[m].1
        == end[i].1.send by {
        if m < blank.len() {
            assert(sent[m] == blank[m]);
        } else {
            assert(sent[m] == later[m - blank.len()]);
        }
    }
    if exists|m: int| 0 <= m < sent.len() && (#[trigger] sent[m]).0 == k {
        let m = choose|m: int| 0 <= m < sent.len() && (#[trigger] sent[m]).0 == k;
        if m < blank.len() {
            assert(sent[m] == blank[m]);
        } else {
            assert(sent[m] == later[m - blank.len()]);
        }
    }
    if on {
        assert(fixed[i].0 == k && fixed[i].1.on_tree);
        let j = choose|j: int| 0 <= j < keys.len() && keys[j] == k;
        assert(step_done(fixed, own, keys[j], get(end, keys[j])->0, later));
        if end[i].1.send != was.send || was.seq + 1 >= RESEND_ROUNDS {
            let x = (k, end[i].1.send);
            let m = choose|m: int| 0 <= m < sent.len() && sent[m] == x;
            assert(sent[m].0 == k);
        }
    } else if was.on_tree {
        let x = (k, Set::<int>::empty());
        let m = choose|m: int| 0 <= m < sent.len() && sent[m] == x;
        assert(sent[m].0 == k);
    }
}

proof fn lemma_who_left(
    b: BloomsView,
    self_key: PublicKey,
    self_parent: PublicKey,
    parents: Seq<(PublicKey, PublicKey)>,
    m: int,
)
    requires
        0 <= m < left_tree(b, self_key, self_parent, parents).len(),
    ensures
        ({
            let (k, f) = left_tree(b, self_key, self_parent, parents)[m];
            &&& f == Set::<int>::empty()
            &&& exists|x: int|
                0 <= x < b.len() && (#[trigger] b[x]).0 == k && b[x].1.on_tree && !is_neighbour(
                    k,
                    self_key,
                    self_parent,
                    parents,
                )
        }),
    decreases b.len(),
{
    let d = b.drop_last();
    let t = left_tree(b, self_key, self_parent, parents);
    let rest = left_tree(d, self_key, self_parent, parents);
    if m < rest.len() {
        lemma_who_left(d, self_key, self_parent, parents, m);
        let (k, f) = rest[m];
        assert(t[m] == rest[m]);
        let x = choose|x: int|
            0 <= x < d.len() && (#[trigger] d[x]).0 == k && d[x].1.on_tree && !is_neighbour(
                k,
                self_key,
                self_parent,
                parents,
            );
        assert(b[x] == d[x]);
    } else {
        let x = b.len() - 1;
        assert(b[x] == b.last());
        assert(t[m].0 == b[x].0);
    }
}

/// A filter that a neighbour was sent is taken back a round later than it could be: as long as the
/// last round took nothing back, all that was sent stays, and the filter is held to be stale if some
/// of it is reached no more; the round after a stale one sends our own bits and those of the other
/// neighbours in the tree, and no others.
pub proof fn lemma_stale_bits_go_a_round_later(
    b: BloomsView,
    self_key: PublicKey,
    self_parent: PublicKey,
    parents: Seq<(PublicKey, PublicKey)>,
    own: Set<int>,
    i: int,
)
    requires
        distinct(b),
        0 <= i < b.len(),
        self_parent == b[i].0 || get(parents, b[i].0) == Some(self_key),
    ensures
        ({
            let end = maintained(b, self_key, self_parent, parents, own).0;
            let was = b[i].1;
            let now = end[i].1;
            &&& !was.z_dirty ==> was.send.subset_of(now.send)
            &&& !was.z_dirty ==> (now.z_dirty <==> exists|x: int|
                #![trigger was.send.contains(x)]
                was.send.contains(x) && !own.contains(x) && forall|j: int|
                    0 <= j < b.len() && j != i && (#[trigger] end[j]).1.on_tree
                        ==> !b[j].1.recv.contains(x))
            &&& was.z_dirty ==> !now.z_dirty
            &&& was.z_dirty ==> forall|x: int|
                #![trigger now.send.contains(x)]
                now.send.contains(x) ==> own.contains(x) || exists|j: int|
                    0 <= j < b.len() && j != i && (#[trigger] end[j]).1.on_tree
                        && b[j].1.recv.contains(x)
        }),
{
    let fixed = refitted(b, self_key, self_parent, parents);
    let keys = tree_keys(fixed);
    let (end, later) = maintain_upto(fixed, keys, own, keys.len());
    let (k, was) = b[i];
    assert(distinct(fixed)) by {
        assert forall|x: int, y: int| 0 <= x < y < fixed.len() implies fixed[x].0 != fixed[y].0 by {
            assert(b[x].0 != b[y].0);
        }
    }
    lemma_tree_keys(fixed);
    lemma_tree_keys_are(fixed, k);
    lemma_maintain_upto(fixed, keys, own, keys.len());
    assert(end[i].0 == fixed[i].0);
    lemma_entry(end, i);
    lemma_entry(fixed, i);
    assert(fixed[i].0 == k && fixed[i].1.on_tree);
    let at = choose|j: int| 0 <= j < keys.len() && keys[j] == k;
    assert(step_done(fixed, own, keys[at], get(end, keys[at])->0, later));
    let base = covering(fixed, k, own);
    assert forall|x: int| #[trigger]
        base.contains(x) <==> own.contains(x) || exists|j: int|
            0 <= j < b.len() && j != i && (#[trigger] end[j]).1.on_tree && b[j].1.recv.contains(x) by {
        if base.contains(x) && !own.contains(x) {
            let j = choose|j: int|
                #![trigger fixed[j]]
                0 <= j < fixed.len() && fixed[j].1.on_tree && fixed[j].0 != k
                    && fixed[j].1.recv.contains(x);
            assert(end[j].0 == fixed[j].0 && end[j].1.on_tree);
            assert(b[j].1.recv.contains(x));
        }
        if exists|j: int|
            0 <= j < b.len() && j != i && (#[trigger] end[j]).1.on_tree && b[j].1.recv.contains(x) {
            let j = choose|j: int|
                0 <= j < b.len() && j != i && (#[trigger] end[j]).1.on_tree
                    && b[j].1.recv.contains(x);
            assert(end[j].0 == fixed[j].0);
            assert(fixed[j].0 != k) by {
                if i < j {
                    assert(fixed[i].0 != fixed[j].0);
                } else {
                    assert(fixed[j].0 != fixed[i].0);
                }
            }
            assert(fixed[j].1.on_tree && fixed[j].1.recv.contains(x));
        }
    }
    if !was.z_dirty {
        let now = end[i].1;
        assert(now.send == base.union(was.send));
        if exists|x: int|
            #![trigger was.send.contains(x)]
            was.send.contains(x) && !base.contains(x) {
            let x = choose|x: int|
                #![trigger was.send.contains(x)]
                was.send.contains(x) && !base.contains(x);
            assert(now.send.contains(x));
        } else {
            assert(base.union(was.send) =~= base);
        }
        if now.z_dirty {
            let x = choose|x: int|
                #![trigger was.send.contains(x)]
                was.send.contains(x) && !base.contains(x);
            assert(was.send.contains(x) && !own.contains(x) && forall|j: int|
                0 <= j < b.len() && j != i && (#[trigger] end[j]).1.on_tree
                    ==> !b[j].1.recv.contains(x));
        }
    }
}

} // verus!
