//! The spanning tree: what is known of each node, and what follows from it.
//!
//! Every node announces its parent. The announcements of one node are ordered, and the least
//! one by that order wins everywhere, so nodes that hear the same announcements agree whatever
//! the order in which they hear them. Coordinates of a node are the ports on the way from the
//! root down to it.
use vstd::prelude::*;
use crate::bytes::{
    append, bytes_eq, key_eq, key_less, lemma_lex_irreflexive, lemma_lex_total,
    lemma_lex_transitive, lex_less, PublicKey, Sig,
};
use crate::crypto::{ed25519_accepts, Crypto};
use crate::table::{get, has_key, lemma_find, lemma_put, put, find, KeyTable};
use crate::wire::{encode_uvarint, uvarint, Announce, PeerPort, SigRes};

verus! {

/// Stored tree state for a known node.
#[derive(Clone, Copy, Debug)]
pub struct RouterInfo {
    pub parent: PublicKey,
    pub seq: u64,
    pub nonce: u64,
    pub port: PeerPort,
    pub psig: Sig,
    pub sig: Sig,
}

/// The announcement that a node's state came from.
pub open spec fn announce_of(i: RouterInfo, key: PublicKey) -> RouterAnnounce {
    RouterAnnounce {
        key,
        parent: i.parent,
        seq: i.seq,
        nonce: i.nonce,
        port: i.port,
        psig: i.psig,
        sig: i.sig,
    }
}

/// The state that an announcement puts a node in.
pub open spec fn info_of(a: RouterAnnounce) -> RouterInfo {
    RouterInfo {
        parent: a.parent,
        seq: a.seq,
        nonce: a.nonce,
        port: a.port,
        psig: a.psig,
        sig: a.sig,
    }
}

/// The wire form of an announcement.
pub open spec fn wire_of(a: RouterAnnounce) -> Announce {
    Announce {
        key: a.key,
        parent: a.parent,
        sig_res: SigRes { seq: a.seq, nonce: a.nonce, port: a.port, psig: a.psig },
        sig: a.sig,
    }
}

impl RouterInfo {
    /// Reconstructs the announcement from stored info.
    pub fn get_announce(&self, key: PublicKey) -> (r: RouterAnnounce)
        ensures
            r == announce_of(*self, key),
    {
        RouterAnnounce {
            key,
            parent: self.parent,
            seq: self.seq,
            nonce: self.nonce,
            port: self.port,
            psig: self.psig,
            sig: self.sig,
        }
    }

    /// Whether two states are the same in every field.
    pub fn same_as(&self, other: &RouterInfo) -> (r: bool)
        ensures
            r == (*self == *other),
    {
        proof {
            crate::bytes::lemma_array_view_eq(self.psig, other.psig);
            crate::bytes::lemma_array_view_eq(self.sig, other.sig);
        }
        key_eq(&self.parent, &other.parent) && self.seq == other.seq && self.nonce == other.nonce
            && self.port == other.port && bytes_eq(self.psig.as_slice(), other.psig.as_slice())
            && bytes_eq(self.sig.as_slice(), other.sig.as_slice())
    }
}

/// A tree announcement.
#[derive(Clone, Copy, Debug)]
pub struct RouterAnnounce {
    pub key: PublicKey,
    pub parent: PublicKey,
    pub seq: u64,
    pub nonce: u64,
    pub port: PeerPort,
    pub psig: Sig,
    pub sig: Sig,
}

/// The bytes that node and parent sign: node, parent, seq, nonce, port.
pub open spec fn signed_position(
    node: PublicKey,
    parent: PublicKey,
    seq: u64,
    nonce: u64,
    port: PeerPort,
) -> Seq<u8> {
    node@ + parent@ + uvarint(seq) + uvarint(nonce) + uvarint(port)
}

/// Whether an announcement is valid: only the root has port zero, and both node and parent
/// signed it.
pub open spec fn announce_valid(a: RouterAnnounce) -> bool {
    let bs = signed_position(a.key, a.parent, a.seq, a.nonce, a.port);
    &&& a.port == 0 ==> a.key == a.parent
    &&& ed25519_accepts(a.key@, bs, a.sig@)
    &&& ed25519_accepts(a.parent@, bs, a.psig@)
}

/// Computes the bytes that node and parent sign.
pub fn sig_res_bytes_for_sig(
    node: &PublicKey,
    parent: &PublicKey,
    seq: u64,
    nonce: u64,
    port: PeerPort,
) -> (out: Vec<u8>)
    ensures
        out@ == signed_position(*node, *parent, seq, nonce, port),
{
    let mut out: Vec<u8> = Vec::new();
    append(&mut out, node.as_slice());
    append(&mut out, parent.as_slice());
    encode_uvarint(&mut out, seq);
    encode_uvarint(&mut out, nonce);
    encode_uvarint(&mut out, port);
    assert(out@ =~= signed_position(*node, *parent, seq, nonce, port));
    out
}

impl RouterAnnounce {
    /// Computes the bytes for the signatures: node, parent, seq, nonce, port.
    pub fn bytes_for_sig(&self) -> (out: Vec<u8>)
        ensures
            out@ == signed_position(self.key, self.parent, self.seq, self.nonce, self.port),
    {
        sig_res_bytes_for_sig(&self.key, &self.parent, self.seq, self.nonce, self.port)
    }

    /// Verifies the signatures on the announcement.
    pub fn check(&self) -> (r: bool)
        ensures
            r == announce_valid(*self),
    {
        if self.port == 0 && !key_eq(&self.key, &self.parent) {
            return false;
        }
        let bs = self.bytes_for_sig();
        Crypto::verify(&self.key, &bs, &self.sig) && Crypto::verify(&self.parent, &bs, &self.psig)
    }

    /// Converts to wire format.
    pub fn to_wire(&self) -> (r: Announce)
        ensures
            r == wire_of(*self),
    {
        Announce {
            key: self.key,
            parent: self.parent,
            sig_res: SigRes { seq: self.seq, nonce: self.nonce, port: self.port, psig: self.psig },
            sig: self.sig,
        }
    }

    /// Converts from wire format.
    pub fn from_wire(ann: &Announce) -> (r: Self)
        ensures
            wire_of(r) == *ann,
    {
        RouterAnnounce {
            key: ann.key,
            parent: ann.parent,
            seq: ann.sig_res.seq,
            nonce: ann.sig_res.nonce,
            port: ann.sig_res.port,
            psig: ann.sig_res.psig,
            sig: ann.sig,
        }
    }

    /// The state that the announcement puts its node in.
    pub fn info(&self) -> (r: RouterInfo)
        ensures
            r == info_of(*self),
    {
        RouterInfo {
            parent: self.parent,
            seq: self.seq,
            nonce: self.nonce,
            port: self.port,
            psig: self.psig,
            sig: self.sig,
        }
    }
}

/// An announcement survives the wire unchanged.
pub proof fn lemma_wire_form_is_faithful(a: RouterAnnounce, b: RouterAnnounce)
    requires
        wire_of(a) == wire_of(b),
    ensures
        a == b,
{
    assert(wire_of(a).sig_res == wire_of(b).sig_res);
}

// ---------------------------------------------------------------------------
// Order of announcements
// ---------------------------------------------------------------------------

/// Whether the state `b` replaces the state `a`: the higher sequence number wins, then the
/// lower parent key, then the lower nonce.
pub open spec fn supersedes(b: RouterInfo, a: RouterInfo) -> bool {
    if a.seq != b.seq {
        b.seq > a.seq
    } else if a.parent != b.parent {
        lex_less(b.parent@, a.parent@)
    } else {
        b.nonce < a.nonce
    }
}

/// Whether the state `new` replaces the state `old`.
pub fn is_newer(new: &RouterInfo, old: &RouterInfo) -> (r: bool)
    ensures
        r == supersedes(*new, *old),
{
    proof {
        crate::bytes::lemma_array_view_eq(new.parent, old.parent);
        lemma_lex_total(new.parent@, old.parent@);
        lemma_lex_irreflexive(new.parent@);
        if lex_less(old.parent@, new.parent@) && lex_less(new.parent@, old.parent@) {
            lemma_lex_transitive(new.parent@, old.parent@, new.parent@);
        }
    }
    if old.seq > new.seq {
        false
    } else if old.seq < new.seq {
        true
    } else if key_less(&old.parent, &new.parent) {
        false
    } else if key_less(&new.parent, &old.parent) {
        true
    } else {
        new.nonce < old.nonce
    }
}

/// Two states that say the same of a node's place: neither replaces the other.
pub open spec fn same_position(a: RouterInfo, b: RouterInfo) -> bool {
    a.seq == b.seq && a.parent == b.parent && a.nonce == b.nonce
}

/// Replacement is a strict total order: nothing replaces itself, of two different positions
/// exactly one replaces the other, and replacement is transitive.
pub proof fn lemma_supersedes_is_an_order(a: RouterInfo, b: RouterInfo, c: RouterInfo)
    ensures
        !supersedes(a, a),
        supersedes(a, b) || supersedes(b, a) || same_position(a, b),
        !(supersedes(a, b) && supersedes(b, a)),
        supersedes(a, b) && supersedes(b, c) ==> supersedes(a, c),
{
    crate::bytes::lemma_array_view_eq(a.parent, b.parent);
    crate::bytes::lemma_array_view_eq(b.parent, c.parent);
    crate::bytes::lemma_array_view_eq(a.parent, c.parent);
    lemma_lex_total(a.parent@, b.parent@);
    lemma_lex_irreflexive(a.parent@);
    lemma_lex_irreflexive(b.parent@);
    if lex_less(a.parent@, b.parent@) && lex_less(b.parent@, a.parent@) {
        lemma_lex_transitive(a.parent@, b.parent@, a.parent@);
    }
    if lex_less(a.parent@, b.parent@) && lex_less(b.parent@, c.parent@) {
        lemma_lex_transitive(a.parent@, b.parent@, c.parent@);
        if a.parent == c.parent {
            lemma_lex_irreflexive(a.parent@);
        }
    }
}

/// What is known of the nodes, in the order in which they were first heard of.
pub type Infos = Seq<(PublicKey, RouterInfo)>;

/// Whether an announcement is accepted over what is known.
pub open spec fn accepts(infos: Infos, a: RouterAnnounce) -> bool {
    get(infos, a.key) matches Some(old) ==> supersedes(info_of(a), old)
}

/// What is known after an announcement was heard.
pub open spec fn heard(infos: Infos, a: RouterAnnounce) -> Infos {
    if accepts(infos, a) {
        put(infos, a.key, info_of(a))
    } else {
        infos
    }
}

/// Hearing an announcement again changes nothing.
pub proof fn lemma_hearing_is_idempotent(infos: Infos, a: RouterAnnounce)
    ensures
        heard(heard(infos, a), a) == heard(infos, a),
{
    lemma_put(infos, a.key, info_of(a));
    lemma_supersedes_is_an_order(info_of(a), info_of(a), info_of(a));
    assert(accepts(infos, a) ==> get(heard(infos, a), a.key) == Some(info_of(a)));
}

/// The order in which two announcements are heard does not matter: afterwards the same is
/// known of every node. Two announcements of one position with different signatures are left
/// out: the one heard first stays.
pub proof fn lemma_hearing_commutes(
    infos: Infos,
    a: RouterAnnounce,
    b: RouterAnnounce,
    k: PublicKey,
)
    requires
        a.key == b.key && same_position(info_of(a), info_of(b)) ==> a == b,
    ensures
        get(heard(heard(infos, a), b), k) == get(heard(heard(infos, b), a), k),
{
    lemma_put(infos, a.key, info_of(a));
    lemma_put(infos, b.key, info_of(b));
    let ab = heard(infos, a);
    let ba = heard(infos, b);
    lemma_put(ab, b.key, info_of(b));
    lemma_put(ba, a.key, info_of(a));
    let ia = info_of(a);
    let ib = info_of(b);
    lemma_supersedes_is_an_order(ia, ib, ia);
    lemma_supersedes_is_an_order(ib, ia, ib);
    assert(get(infos, a.key) == get(infos, a.key));
    assert(get(ab, b.key) == get(ab, b.key));
    assert(get(ba, a.key) == get(ba, a.key));
    match get(infos, a.key) {
        Some(o) => {
            lemma_supersedes_is_an_order(ia, ib, o);
            lemma_supersedes_is_an_order(ib, ia, o);
        },
        None => {},
    }
    assert(get(ab, k) == get(ab, k));
    assert(get(ba, k) == get(ba, k));
    assert(get(put(ab, b.key, ib), k) == (if k == b.key { Some(ib) } else { get(ab, k) }));
    assert(get(put(ba, a.key, ia), k) == (if k == a.key { Some(ia) } else { get(ba, k) }));
    assert(get(put(infos, a.key, ia), k) == (if k == a.key { Some(ia) } else { get(infos, k) }));
    assert(get(put(infos, b.key, ib), k) == (if k == b.key { Some(ib) } else { get(infos, k) }));
}

/// What is known of a node only ever moves forward in the order.
pub proof fn lemma_hearing_moves_forward(infos: Infos, a: RouterAnnounce, k: PublicKey)
    requires
        has_key(infos, k),
    ensures
        get(heard(infos, a), k) matches Some(n) && (n == get(infos, k)->0 || supersedes(
            n,
            get(infos, k)->0,
        )),
{
    lemma_put(infos, a.key, info_of(a));
    assert(get(put(infos, a.key, info_of(a)), k) == (if k == a.key {
        Some(info_of(a))
    } else {
        get(infos, k)
    }));
}

// ---------------------------------------------------------------------------
// Ancestors
// ---------------------------------------------------------------------------

/// The nodes from `seen` on up: follows parents from `here` until one was seen already or is
/// not known. The nodes seen cannot outnumber the nodes known.
pub open spec fn climb(infos: Infos, here: PublicKey, seen: Seq<PublicKey>) -> Seq<PublicKey>
    decreases infos.len() - seen.len(),
{
    if seen.contains(here) || !has_key(infos, here) || seen.len() >= infos.len() {
        seen
    } else {
        climb(infos, get(infos, here)->0.parent, seen.push(here))
    }
}

/// A node and its ancestors, from the node up.
pub open spec fn lineage(infos: Infos, key: PublicKey) -> Seq<PublicKey> {
    climb(infos, key, Seq::empty())
}

/// Different known nodes cannot outnumber the nodes known.
proof fn lemma_pigeonhole(infos: Infos, seen: Seq<PublicKey>, here: PublicKey)
    requires
        seen.no_duplicates(),
        forall|i: int| 0 <= i < seen.len() ==> has_key(infos, #[trigger] seen[i]),
        has_key(infos, here),
        !seen.contains(here),
    ensures
        seen.len() < infos.len(),
{
    let s = seen.push(here);
    let at = Seq::new(s.len(), |i: int| find(infos, s[i]));
    assert forall|i: int| 0 <= i < s.len() implies has_key(infos, #[trigger] s[i]) by {
        if i < seen.len() {
            assert(s[i] == seen[i]);
        }
    }
    assert forall|i: int, j: int| 0 <= i < j < s.len() implies s[i] != s[j] by {
        if j == seen.len() {
            assert(s[i] == seen[i]);
            assert(seen.contains(seen[i]));
        } else {
            assert(s[i] == seen[i] && s[j] == seen[j]);
        }
    }
    assert(at.no_duplicates()) by {
        assert forall|i: int, j: int| 0 <= i < at.len() && 0 <= j < at.len() && i != j implies at[i]
            != at[j] by {
            lemma_find(infos, s[i]);
            lemma_find(infos, s[j]);
            assert(has_key(infos, s[i]) && has_key(infos, s[j]));
            if at[i] == at[j] {
                assert(s[i] == s[j]);
                if i < j {
                    assert(s[i] != s[j]);
                } else {
                    assert(s[j] != s[i]);
                }
            }
        }
    }
    at.unique_seq_to_set();
    let range = vstd::set_lib::set_int_range(0, infos.len() as int);
    vstd::set_lib::lemma_int_range(0, infos.len() as int);
    assert(at.to_set().subset_of(range)) by {
        assert forall|x: int| at.to_set().contains(x) implies range.contains(x) by {
            let i = choose|i: int| 0 <= i < at.len() && at[i] == x;
            lemma_find(infos, s[i]);
            assert(has_key(infos, s[i]));
        }
    }
    vstd::set_lib::lemma_len_subset(at.to_set(), range);
}

/// What holds of the nodes climbed through: all known, none twice, each the parent of the one
/// before.
pub open spec fn is_climb(infos: Infos, seen: Seq<PublicKey>, here: PublicKey) -> bool {
    &&& seen.no_duplicates()
    &&& forall|i: int| 0 <= i < seen.len() ==> has_key(infos, #[trigger] seen[i])
    &&& forall|i: int|
        0 <= i < seen.len() - 1 ==> get(infos, #[trigger] seen[i])->0.parent == seen[i + 1]
    &&& seen.len() > 0 ==> get(infos, seen.last())->0.parent == here
}

proof fn lemma_climb_push(infos: Infos, seen: Seq<PublicKey>, here: PublicKey)
    requires
        is_climb(infos, seen, here),
        has_key(infos, here),
        !seen.contains(here),
    ensures
        is_climb(infos, seen.push(here), get(infos, here)->0.parent),
        seen.len() < infos.len(),
{
    lemma_pigeonhole(infos, seen, here);
    let s = seen.push(here);
    assert forall|i: int, j: int| 0 <= i < s.len() && 0 <= j < s.len() && i != j implies s[i] != s[j] by {
        if i == seen.len() {
            assert(seen.contains(seen[j]));
        } else if j == seen.len() {
            assert(seen.contains(seen[i]));
        }
    }
    assert forall|i: int| 0 <= i < s.len() implies has_key(infos, #[trigger] s[i]) by {
        if i < seen.len() {
            assert(s[i] == seen[i]);
        }
    }
    assert forall|i: int| 0 <= i < s.len() - 1 implies get(infos, #[trigger] s[i])->0.parent
        == s[i + 1] by {
        assert(s[i] == seen[i]);
        if i == seen.len() - 1 {
            assert(seen.last() == seen[i]);
        } else {
            assert(s[i + 1] == seen[i + 1]);
        }
    }
}

/// A climb ends only where a node repeats or is not known; until then every step is to a
/// parent.
pub proof fn lemma_climb(infos: Infos, here: PublicKey, seen: Seq<PublicKey>)
    requires
        is_climb(infos, seen, here),
    ensures
        ({
            let all = climb(infos, here, seen);
            let end = if all.len() == seen.len() {
                here
            } else {
                get(infos, all.last())->0.parent
            };
            &&& seen.len() <= all.len()
            &&& all.take(seen.len() as int) == seen
            &&& is_climb(infos, all, end)
            &&& all.contains(end) || !has_key(infos, end)
            &&& all.len() > seen.len() ==> all[seen.len() as int] == here
            &&& all.len() <= infos.len() || all.len() == seen.len()
        }),
    decreases infos.len() - seen.len(),
{
    let all = climb(infos, here, seen);
    if seen.contains(here) || !has_key(infos, here) {
        assert(all.take(seen.len() as int) =~= seen);
    } else {
        lemma_climb_push(infos, seen, here);
        let next = get(infos, here)->0.parent;
        lemma_climb(infos, next, seen.push(here));
        assert(all.take(seen.len() as int) =~= all.take(seen.push(here).len() as int).take(
            seen.len() as int,
        ));
        assert(all.take(seen.len() as int) =~= seen);
        assert(all[seen.len() as int] == all.take(seen.push(here).len() as int)[seen.len() as int]);
    }
}

/// The ancestors of a node, from the node up, and how the climb ended.
pub proof fn lemma_lineage(infos: Infos, key: PublicKey)
    ensures
        ({
            let all = lineage(infos, key);
            let end = if all.len() == 0 {
                key
            } else {
                get(infos, all.last())->0.parent
            };
            &&& is_climb(infos, all, end)
            &&& all.contains(end) || !has_key(infos, end)
            &&& all.len() > 0 ==> all[0] == key
            &&& all.len() <= infos.len()
            &&& has_key(infos, key) <==> all.len() > 0
        }),
{
    assert(is_climb(infos, Seq::empty(), key));
    lemma_climb(infos, key, Seq::empty());
    lemma_find(infos, key);
    if has_key(infos, key) {
        assert(infos.len() > 0);
        assert(lineage(infos, key) == climb(
            infos,
            get(infos, key)->0.parent,
            Seq::empty().push(key),
        ));
        lemma_climb_push(infos, Seq::empty(), key);
        lemma_climb(infos, get(infos, key)->0.parent, Seq::empty().push(key));
    }
}

fn contains_key(keys: &Vec<PublicKey>, key: &PublicKey) -> (r: bool)
    ensures
        r == keys@.contains(*key),
{
    let mut i: usize = 0;
    while i < keys.len()
        invariant
            i <= keys@.len(),
            forall|j: int| 0 <= j < i ==> keys@[j] != *key,
        decreases keys@.len() - i,
    {
        if key_eq(&keys[i], key) {
            return true;
        }
        i += 1;
    }
    false
}

/// The node and its ancestors, from the node up.
pub fn backwards_ancestry(infos: &KeyTable<PublicKey, RouterInfo>, key: &PublicKey) -> (r: Vec<
    PublicKey,
>)
    ensures
        r@ == lineage(infos@, *key),
{
    let mut anc: Vec<PublicKey> = Vec::new();
    let mut here: PublicKey = *key;
    assert(anc@ =~= Seq::empty());
    loop
        invariant
            is_climb(infos@, anc@, here),
            climb(infos@, here, anc@) == lineage(infos@, *key),
            anc@.len() <= infos@.len(),
        decreases infos@.len() - anc@.len(),
    {
        if contains_key(&anc, &here) {
            return anc;
        }
        match infos.get(&here) {
            Some(info) => {
                proof {
                    lemma_climb_push(infos@, anc@, here);
                }
                anc.push(here);
                here = info.parent;
            },
            None => {
                return anc;
            },
        }
    }
}

/// The ancestors of a node and the node, from the root down.
pub open spec fn ancestry(infos: Infos, key: PublicKey) -> Seq<PublicKey> {
    lineage(infos, key).reverse()
}

/// The ancestors of a node and the node, from the root down.
pub fn get_ancestry(infos: &KeyTable<PublicKey, RouterInfo>, key: &PublicKey) -> (r: Vec<PublicKey>)
    ensures
        r@ == ancestry(infos@, *key),
{
    let up = backwards_ancestry(infos, key);
    let mut r: Vec<PublicKey> = Vec::new();
    let mut i: usize = up.len();
    while i > 0
        invariant
            i <= up@.len(),
            r@.len() == up@.len() - i,
            forall|j: int| 0 <= j < r@.len() ==> r@[j] == up@[up@.len() - 1 - j],
        decreases i,
    {
        i -= 1;
        r.push(up[i]);
    }
    assert(r@ =~= up@.reverse());
    r
}

/// The node that the distances are counted to: the last one on the climb.
pub open spec fn top_of(infos: Infos, key: PublicKey) -> Seq<u8> {
    let l = lineage(infos, key);
    if l.len() == 0 {
        Seq::new(32, |i: int| 0u8)
    } else {
        l.last()@
    }
}

/// The distance from a node to each of its ancestors.
pub open spec fn dists_of(infos: Infos, key: PublicKey) -> Seq<(PublicKey, u64)> {
    Seq::new(lineage(infos, key).len(), |i: int| (lineage(infos, key)[i], i as u64))
}

/// Gets root and distances from a starting node. The root is all zeros if the node is not
/// known.
pub fn get_root_and_dists(infos: &KeyTable<PublicKey, RouterInfo>, dest: &PublicKey) -> (r: (
    PublicKey,
    KeyTable<PublicKey, u64>,
))
    ensures
        r.0@ == top_of(infos@, *dest),
        r.1@ == dists_of(infos@, *dest),
        r.1.wf(),
{
    let up = backwards_ancestry(infos, dest);
    proof {
        lemma_lineage(infos@, *dest);
    }
    let mut dists: KeyTable<PublicKey, u64> = KeyTable::new();
    let mut root: PublicKey = [0u8;32];
    assert(root@ =~= Seq::new(32, |i: int| 0u8));
    let mut i: usize = 0;
    while i < up.len()
        invariant
            i <= up@.len(),
            up@ == lineage(infos@, *dest),
            up@.no_duplicates(),
            dists.wf(),
            dists@ == dists_of(infos@, *dest).take(i as int),
            i == 0 ==> root@ == Seq::new(32, |i: int| 0u8),
            i > 0 ==> root == up@[i - 1],
        decreases up@.len() - i,
    {
        let k = up[i];
        proof {
            lemma_find(dists@, k);
            if has_key(dists@, k) {
                assert(dists@[find(dists@, k)].0 == up@[find(dists@, k)]);
            }
        }
        root = k;
        dists.insert(k, i as u64);
        assert(dists@ =~= dists_of(infos@, *dest).take(i + 1));
        i += 1;
    }
    assert(dists_of(infos@, *dest).take(i as int) =~= dists_of(infos@, *dest));
    (root, dists)
}

/// Whether the climb from a node ends at a root: a node that is its own parent.
pub open spec fn is_rooted(infos: Infos, key: PublicKey) -> bool {
    let l = lineage(infos, key);
    l.len() > 0 && get(infos, l.last())->0.parent == l.last()
}

/// The root above a node; the node itself if there is none.
pub open spec fn root_of(infos: Infos, key: PublicKey) -> PublicKey {
    if is_rooted(infos, key) {
        lineage(infos, key).last()
    } else {
        key
    }
}

/// The coordinates of a node: the ports from the root down to it; none if there is no root.
pub open spec fn coords(infos: Infos, key: PublicKey) -> Seq<PeerPort> {
    let l = lineage(infos, key);
    if is_rooted(infos, key) {
        Seq::new((l.len() - 1) as nat, |i: int| get(infos, l[l.len() - 2 - i])->0.port)
    } else {
        Seq::empty()
    }
}

/// Gets root and path (coordinates) from root to destination.
pub fn get_root_and_path(infos: &KeyTable<PublicKey, RouterInfo>, dest: &PublicKey) -> (r: (
    PublicKey,
    Vec<PeerPort>,
))
    ensures
        r.0 == root_of(infos@, *dest),
        r.1@ == coords(infos@, *dest),
        r.1@.len() <= infos@.len(),
{
    let up = backwards_ancestry(infos, dest);
    proof {
        lemma_lineage(infos@, *dest);
    }
    if up.len() == 0 {
        return (*dest, Vec::new());
    }
    let top = up[up.len() - 1];
    let rooted: bool = match infos.get(&top) {
        Some(info) => key_eq(&info.parent, &top),
        None => false,
    };
    assert(has_key(infos@, up@[up@.len() - 1]));
    if !rooted {
        return (*dest, Vec::new());
    }
    let mut ports: Vec<PeerPort> = Vec::new();
    let mut i: usize = up.len() - 1;
    while i > 0
        invariant
            i <= up@.len() - 1,
            up@ == lineage(infos@, *dest),
            is_rooted(infos@, *dest),
            forall|j: int| 0 <= j < up@.len() ==> has_key(infos@, #[trigger] up@[j]),
            ports@ == coords(infos@, *dest).take(up@.len() - 1 - i),
        decreases i,
    {
        i -= 1;
        let k = up[i];
        assert(has_key(infos@, up@[i as int]));
        match infos.get(&k) {
            Some(info) => {
                ports.push(info.port);
            },
            None => {},
        }
        assert(ports@ =~= coords(infos@, *dest).take(up@.len() - 1 - i));
    }
    assert(coords(infos@, *dest).take(up@.len() - 1) =~= coords(infos@, *dest));
    (top, ports)
}

proof fn lemma_climb_unique(infos: Infos, s: Seq<PublicKey>, end: PublicKey, i: int)
    requires
        is_climb(infos, s, end),
        s.contains(end) || !has_key(infos, end),
        0 <= i <= s.len(),
    ensures
        climb(
            infos,
            if i < s.len() {
                s[i]
            } else {
                end
            },
            s.take(i),
        ) == s,
    decreases s.len() - i,
{
    if i == s.len() {
        assert(s.take(i) =~= s);
    } else {
        let t = s.take(i);
        assert(!t.contains(s[i])) by {
            if t.contains(s[i]) {
                let j = choose|j: int| 0 <= j < t.len() && t[j] == s[i];
                assert(s[j] == s[i]);
            }
        }
        assert forall|j: int| 0 <= j < t.len() implies has_key(infos, #[trigger] t[j]) by {
            assert(t[j] == s[j]);
        }
        assert(t.no_duplicates());
        lemma_pigeonhole(infos, t, s[i]);
        assert(t.push(s[i]) =~= s.take(i + 1));
        assert(get(infos, s[i])->0.parent == (if i + 1 < s.len() {
            s[i + 1]
        } else {
            end
        }));
        lemma_climb_unique(infos, s, end, i + 1);
    }
}

/// A node that is not a root sits directly below its parent: same root, and the coordinates
/// are those of the parent with its port appended.
pub proof fn lemma_coords_extend_parent(infos: Infos, key: PublicKey)
    requires
        is_rooted(infos, key),
        get(infos, key)->0.parent != key,
    ensures
        ({
            let parent = get(infos, key)->0.parent;
            &&& is_rooted(infos, parent)
            &&& root_of(infos, key) == root_of(infos, parent)
            &&& coords(infos, key) == coords(infos, parent).push(get(infos, key)->0.port)
        }),
{
    lemma_lineage(infos, key);
    let l = lineage(infos, key);
    let parent = get(infos, key)->0.parent;
    let s = l.skip(1);
    assert(l[0] == key);
    if l.len() == 1 {
        assert(l.last() == key);
    }
    assert(l.len() > 1);
    assert(get(infos, l[0])->0.parent == l[1]);
    assert(s.last() == l.last());
    assert(is_climb(infos, s, l.last())) by {
        assert forall|i: int| 0 <= i < s.len() implies has_key(infos, #[trigger] s[i]) by {
            assert(s[i] == l[i + 1]);
        }
        assert forall|i: int| 0 <= i < s.len() - 1 implies get(infos, #[trigger] s[i])->0.parent
            == s[i + 1] by {
            assert(s[i] == l[i + 1]);
        }
    }
    assert(s[s.len() - 1] == l.last());
    lemma_climb_unique(infos, s, l.last(), 0);
    assert(s.take(0) =~= Seq::empty());
    assert(lineage(infos, parent) == s);
    assert(coords(infos, key) =~= coords(infos, parent).push(get(infos, key)->0.port)) by {
        let c = coords(infos, key);
        let q = coords(infos, parent);
        assert(c.len() == q.len() + 1);
        assert forall|i: int| 0 <= i < c.len() implies c[i] == q.push(get(infos, key)->0.port)[i] by {
            if i < q.len() {
                assert(s[s.len() - 2 - i] == l[l.len() - 2 - i]);
            } else {
                assert(l[l.len() - 2 - i] == key);
            }
        }
    }
}

/// A root has no coordinates, and is its own root.
pub proof fn lemma_coords_of_root(infos: Infos, key: PublicKey)
    requires
        has_key(infos, key),
        get(infos, key)->0.parent == key,
    ensures
        is_rooted(infos, key),
        root_of(infos, key) == key,
        coords(infos, key) == Seq::<PeerPort>::empty(),
{
    let s = seq![key];
    assert(s.contains(key)) by {
        assert(s[0] == key);
    }
    lemma_climb_unique(infos, s, key, 0);
    assert(s.take(0) =~= Seq::empty());
    assert(coords(infos, key) =~= Seq::empty());
}

/// Which announcement wins: the one with the higher number; of two with one number the one with the
/// lower parent; of two with one parent the one with the lower nonce.
pub proof fn lemma_which_announcement_wins(a: RouterInfo, b: RouterInfo)
    ensures
        b.seq > a.seq ==> supersedes(b, a) && !supersedes(a, b),
        b.seq == a.seq && lex_less(b.parent@, a.parent@) ==> supersedes(b, a) && !supersedes(a, b),
        b.seq == a.seq && b.parent == a.parent && b.nonce < a.nonce ==> supersedes(b, a)
            && !supersedes(a, b),
        b.seq == a.seq && b.parent == a.parent && b.nonce == a.nonce ==> !supersedes(b, a),
{
    lemma_lex_irreflexive(a.parent@);
    if lex_less(b.parent@, a.parent@) && lex_less(a.parent@, b.parent@) {
        lemma_lex_transitive(b.parent@, a.parent@, b.parent@);
        lemma_lex_irreflexive(b.parent@);
    }
}

/// What is known after an announcement: of its node the announcement, if nothing was known or it
/// wins over what was; of every other node what was known before.
pub proof fn lemma_what_is_known_after(infos: Infos, a: RouterAnnounce, k: PublicKey)
    ensures
        get(heard(infos, a), k) == (if k == a.key && (get(infos, k) matches Some(old) ==> supersedes(
            info_of(a),
            old,
        )) {
            Some(info_of(a))
        } else {
            get(infos, k)
        }),
{
    lemma_put(infos, a.key, info_of(a));
    assert(get(put(infos, a.key, info_of(a)), k) == (if k == a.key {
        Some(info_of(a))
    } else {
        get(infos, k)
    }));
}

/// A climb follows parents: the ancestors of a node whose climb does not come back to it are its
/// parent and the ancestors of that.
pub proof fn lemma_lineage_goes_through_the_parent(infos: Infos, key: PublicKey)
    requires
        is_rooted(infos, key),
        get(infos, key)->0.parent != key,
    ensures
        lineage(infos, key) == seq![key] + lineage(infos, get(infos, key)->0.parent),
{
    lemma_lineage(infos, key);
    let l = lineage(infos, key);
    let s = l.skip(1);
    assert(l[0] == key);
    if l.len() == 1 {
        assert(l.last() == key);
    }
    assert(get(infos, l[0])->0.parent == l[1]);
    assert(is_climb(infos, s, l.last())) by {
        assert forall|i: int| 0 <= i < s.len() implies has_key(infos, #[trigger] s[i]) by {
            assert(s[i] == l[i + 1]);
        }
        assert forall|i: int| 0 <= i < s.len() - 1 implies get(infos, #[trigger] s[i])->0.parent
            == s[i + 1] by {
            assert(s[i] == l[i + 1]);
        }
    }
    assert(s[s.len() - 1] == l.last());
    lemma_climb_unique(infos, s, l.last(), 0);
    assert(s.take(0) =~= Seq::empty());
    assert(l =~= seq![key] + s);
}

// ---------------------------------------------------------------------------
// Distance
// ---------------------------------------------------------------------------

/// How many ports two paths have in common from the start.
pub open spec fn common(a: Seq<PeerPort>, b: Seq<PeerPort>) -> nat
    decreases a.len(),
{
    if a.len() == 0 || b.len() == 0 || a[0] != b[0] {
        0
    } else {
        1 + common(a.drop_first(), b.drop_first())
    }
}

/// How far apart two paths are in the tree: up to where they part, and down again.
pub open spec fn tree_dist(a: Seq<PeerPort>, b: Seq<PeerPort>) -> nat {
    (a.len() + b.len() - 2 * common(a, b)) as nat
}

/// A distance as it is counted: up to the largest number there is.
pub open spec fn counted(d: nat) -> u64 {
    if d <= u64::MAX {
        d as u64
    } else {
        u64::MAX
    }
}

proof fn lemma_common_bound(a: Seq<PeerPort>, b: Seq<PeerPort>)
    ensures
        common(a, b) <= a.len(),
        common(a, b) <= b.len(),
        common(a, b) == common(b, a),
    decreases a.len(),
{
    if a.len() > 0 && b.len() > 0 && a[0] == b[0] {
        lemma_common_bound(a.drop_first(), b.drop_first());
    }
}

proof fn lemma_common_at(a: Seq<PeerPort>, b: Seq<PeerPort>, n: nat)
    requires
        n <= a.len(),
        n <= b.len(),
        forall|i: int| 0 <= i < n ==> a[i] == b[i],
        n < a.len() && n < b.len() ==> a[n as int] != b[n as int],
    ensures
        common(a, b) == n,
    decreases n,
{
    if n > 0 {
        assert(a[0] == b[0]);
        let x = a.drop_first();
        let y = b.drop_first();
        assert forall|i: int| 0 <= i < n - 1 implies x[i] == y[i] by {
            assert(a[i + 1] == b[i + 1]);
        }
        lemma_common_at(x, y, (n - 1) as nat);
    }
}

proof fn lemma_common_chain(a: Seq<PeerPort>, b: Seq<PeerPort>, c: Seq<PeerPort>)
    ensures
        common(a, c) >= common(a, b) || common(a, c) >= common(b, c),
    decreases a.len(),
{
    if a.len() > 0 && b.len() > 0 && c.len() > 0 && a[0] == b[0] && b[0] == c[0] {
        lemma_common_chain(a.drop_first(), b.drop_first(), c.drop_first());
    }
}

proof fn lemma_common_self(a: Seq<PeerPort>)
    ensures
        common(a, a) == a.len(),
    decreases a.len(),
{
    if a.len() > 0 {
        lemma_common_self(a.drop_first());
    }
}

proof fn lemma_common_whole(a: Seq<PeerPort>, b: Seq<PeerPort>)
    requires
        common(a, b) == a.len(),
        common(a, b) == b.len(),
    ensures
        a == b,
    decreases a.len(),
{
    if a.len() == 0 {
        assert(a =~= b);
    } else {
        lemma_common_whole(a.drop_first(), b.drop_first());
        assert(a =~= seq![a[0]] + a.drop_first());
        assert(b =~= seq![b[0]] + b.drop_first());
    }
}

/// Tree distance is a metric: zero exactly between equal paths, the same both ways, and no
/// detour is shorter.
pub proof fn lemma_tree_dist_is_a_metric(
    a: Seq<PeerPort>,
    b: Seq<PeerPort>,
    c: Seq<PeerPort>,
)
    ensures
        tree_dist(a, b) == 0 <==> a == b,
        tree_dist(a, b) == tree_dist(b, a),
        tree_dist(a, c) <= tree_dist(a, b) + tree_dist(b, c),
{
    lemma_common_bound(a, b);
    lemma_common_bound(b, c);
    lemma_common_bound(a, c);
    lemma_common_chain(a, b, c);
    lemma_common_self(a);
    if tree_dist(a, b) == 0 {
        lemma_common_whole(a, b);
    }
}

/// Tree distance counts steps: those from one end up to where the paths part, and those down to the
/// other end. So a node is one step from its parent, and as many from the root as its path is
/// long.
pub proof fn lemma_tree_dist_counts_steps(
    shared: Seq<PeerPort>,
    a: Seq<PeerPort>,
    b: Seq<PeerPort>,
)
    requires
        a.len() == 0 || b.len() == 0 || a[0] != b[0],
    ensures
        tree_dist(shared + a, shared + b) == a.len() + b.len(),
{
    let (x, y, n) = (shared + a, shared + b, shared.len());
    if n < x.len() && n < y.len() {
        assert(x[n as int] == a[0] && y[n as int] == b[0]);
    }
    lemma_common_at(x, y, n);
}

/// Counts how far apart two paths are in the tree.
pub fn path_dist(a: &[PeerPort], b: &[PeerPort]) -> (d: u64)
    ensures
        d == counted(tree_dist(a@, b@)),
{
    let mut n: usize = 0;
    while n < a.len() && n < b.len() && a[n] == b[n]
        invariant
            n <= a@.len(),
            n <= b@.len(),
            forall|i: int| 0 <= i < n ==> a@[i] == b@[i],
        decreases a@.len() - n,
    {
        n += 1;
    }
    proof {
        lemma_common_at(a@, b@, n as nat);
    }
    let up: u64 = (a.len() - n) as u64;
    let down: u64 = (b.len() - n) as u64;
    up.saturating_add(down)
}

/// The distances of a rooted node start with zero at the node itself, grow by one with every step to
/// a parent, and end at its root.
pub proof fn lemma_distances_grow_by_one(infos: Infos, key: PublicKey)
    requires
        is_rooted(infos, key),
        lineage(infos, key).len() <= u64::MAX,
    ensures
        ({
            let d = dists_of(infos, key);
            &&& d.len() > 0
            &&& d[0] == (key, 0u64)
            &&& d.last().0@ == top_of(infos, key)
            &&& forall|i: int|
                0 <= i < d.len() - 1 ==> {
                    &&& (#[trigger] d[i]).1 + 1 == d[i + 1].1
                    &&& get(infos, d[i].0)->0.parent == d[i + 1].0
                }
        }),
{
    lemma_lineage(infos, key);
    let l = lineage(infos, key);
    let d = dists_of(infos, key);
    assert forall|i: int| 0 <= i < d.len() - 1 implies {
        &&& (#[trigger] d[i]).1 + 1 == d[i + 1].1
        &&& get(infos, d[i].0)->0.parent == d[i + 1].0
    } by {
        assert(get(infos, l[i])->0.parent == l[i + 1]);
    }
}

/// An announcement counts only if the node and its parent signed the same place: who it is, who its
/// parent is, and the numbers. Only a root, which is its own parent, has the port zero.
pub proof fn lemma_place_is_signed_by_both(a: RouterAnnounce)
    ensures
        announce_valid(a) <==> {
            let place = a.key@ + a.parent@ + uvarint(a.seq) + uvarint(a.nonce) + uvarint(a.port);
            &&& ed25519_accepts(a.key@, place, a.sig@)
            &&& ed25519_accepts(a.parent@, place, a.psig@)
            &&& a.port != 0 || a.key == a.parent
        },
{
}

} // verus!
