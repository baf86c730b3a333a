//! What a node carries for its host over the mesh, and what it shows of its links.
use vstd::prelude::*;
use vstd::string::StringExecFns;
use crate::bytes::{append, key_eq, to_vec, PublicKey};
use crate::links::{ActiveLinksInner, ConnView, LinksView};
use crate::node::PeerInfo;
use crate::peering::PeerBook;
use crate::seqs::{first_index, lemma_first_index_at};
use crate::texts::{comes_first, lemma_text_order, text_less};
use crate::traffic::elapsed;
use crate::uris::text_view;

verus! {

/// The type of a message with a packet of the host.
pub const TYPE_SESSION_TRAFFIC: u8 = 0x01;

/// The type of a message between nodes.
pub const TYPE_SESSION_PROTO: u8 = 0x02;

/// What a message from another node is.
pub enum Payload {
    /// A packet for the host.
    Traffic(Vec<u8>),
    /// A message for the node.
    Proto(Vec<u8>),
    /// Nothing that we know.
    Unknown,
}

/// The view of what a message is.
#[verifier::ext_equal]
pub enum PayloadView {
    Traffic(Seq<u8>),
    Proto(Seq<u8>),
    Unknown,
}

impl View for Payload {
    type V = PayloadView;

    open spec fn view(&self) -> PayloadView {
        match *self {
            Payload::Traffic(d) => PayloadView::Traffic(d@),
            Payload::Proto(d) => PayloadView::Proto(d@),
            Payload::Unknown => PayloadView::Unknown,
        }
    }
}

/// What a message is, by its first byte.
pub open spec fn payload_of(data: Seq<u8>) -> PayloadView {
    if data.len() == 0 {
        PayloadView::Unknown
    } else if data[0] == TYPE_SESSION_TRAFFIC {
        PayloadView::Traffic(data.drop_first())
    } else if data[0] == TYPE_SESSION_PROTO {
        PayloadView::Proto(data.drop_first())
    } else {
        PayloadView::Unknown
    }
}

/// What a message is.
pub fn classify(data: &[u8]) -> (r: Payload)
    ensures
        r@ == payload_of(data@),
{
    if data.len() == 0 {
        return Payload::Unknown;
    }
    let rest = to_vec(vstd::slice::slice_subrange(data, 1, data.len()));
    assert(rest@ =~= data@.drop_first());
    if data[0] == TYPE_SESSION_TRAFFIC {
        Payload::Traffic(rest)
    } else if data[0] == TYPE_SESSION_PROTO {
        Payload::Proto(rest)
    } else {
        Payload::Unknown
    }
}

fn with_type(t: u8, data: &[u8]) -> (r: Vec<u8>)
    ensures
        r@ == seq![t] + data@,
{
    let mut r: Vec<u8> = Vec::new();
    r.push(t);
    append(&mut r, data);
    assert(r@ =~= seq![t] + data@);
    r
}

/// The message with a packet of the host. It reads back as the packet.
pub fn wrap_traffic(packet: &[u8]) -> (r: Vec<u8>)
    ensures
        r@ == seq![TYPE_SESSION_TRAFFIC] + packet@,
        payload_of(r@) == PayloadView::Traffic(packet@),
{
    let r = with_type(TYPE_SESSION_TRAFFIC, packet);
    assert(r@.drop_first() =~= packet@);
    r
}

/// The message between nodes. It reads back as what is in it.
pub fn wrap_proto(msg: &[u8]) -> (r: Vec<u8>)
    ensures
        r@ == seq![TYPE_SESSION_PROTO] + msg@,
        payload_of(r@) == PayloadView::Proto(msg@),
{
    let r = with_type(TYPE_SESSION_PROTO, msg);
    assert(r@.drop_first() =~= msg@);
    r
}

/// How much of the host's packet was written, of what was written of the message.
pub fn payload_written(written: usize) -> (r: usize)
    ensures
        r == (if written > 0 {
            (written - 1) as usize
        } else {
            0
        }),
{
    if written > 0 {
        written - 1
    } else {
        0
    }
}

/// The largest packet of the host.
pub fn host_mtu(session_mtu: u64) -> (r: u64)
    ensures
        r == (if session_mtu == 0 {
            0
        } else if session_mtu - 1 > 65535 {
            65535
        } else {
            (session_mtu - 1) as u64
        }),
{
    let m: u64 = session_mtu.saturating_sub(1);
    if m > 65535 {
        65535
    } else {
        m
    }
}

/// The largest packet of the tunnel interface: what is configured, as far as it can be carried.
pub fn tun_mtu(configured: u64, mtu: u64) -> (r: u16)
    ensures
        r <= configured,
        r <= mtu,
        r == configured || r == mtu || r == 65535,
{
    let m: u64 = if configured < mtu {
        configured
    } else {
        mtu
    };
    if m > 65535 {
        65535
    } else {
        m as u16
    }
}

/// What is shown of a link. Times are in nanoseconds.
#[derive(Debug)]
pub struct LinkPeerInfo {
    pub uri: String,
    pub up: bool,
    pub inbound: bool,
    pub key: PublicKey,
    pub priority: u8,
    pub rx_bytes: u64,
    pub tx_bytes: u64,
    pub rx_rate: u64,
    pub tx_rate: u64,
    pub uptime_ns: u64,
    pub latency_ns: u64,
    pub cost: u64,
    pub last_error: Option<String>,
}

/// The view of what is shown.
#[verifier::ext_equal]
pub struct PeerRow {
    pub uri: Seq<char>,
    pub up: bool,
    pub inbound: bool,
    pub key: Seq<u8>,
    pub priority: u8,
    pub rx_bytes: u64,
    pub tx_bytes: u64,
    pub rx_rate: u64,
    pub tx_rate: u64,
    pub uptime_ns: u64,
    pub latency_ns: u64,
    pub cost: u64,
    pub last_error: Option<Seq<char>>,
}

impl View for LinkPeerInfo {
    type V = PeerRow;

    open spec fn view(&self) -> PeerRow {
        PeerRow {
            uri: self.uri@,
            up: self.up,
            inbound: self.inbound,
            key: self.key@,
            priority: self.priority,
            rx_bytes: self.rx_bytes,
            tx_bytes: self.tx_bytes,
            rx_rate: self.rx_rate,
            tx_rate: self.tx_rate,
            uptime_ns: self.uptime_ns,
            latency_ns: self.latency_ns,
            cost: self.cost,
            last_error: text_view(self.last_error),
        }
    }
}

/// The views of what is shown.
pub open spec fn rows(v: Seq<LinkPeerInfo>) -> Seq<PeerRow> {
    v.map_values(|p: LinkPeerInfo| p@)
}

/// The property of being the neighbour with a key.
pub open spec fn has_row_key(key: PublicKey) -> spec_fn(PeerInfo) -> bool {
    |p: PeerInfo| p.key == key
}

/// What is shown of a link that is up, with the latency and the cost that the router knows of the
/// neighbour.
pub open spec fn link_row(c: ConnView, neighbours: Seq<PeerInfo>, now: u64) -> PeerRow {
    let at = first_index(neighbours, has_row_key(c.key));
    let known = at < neighbours.len();
    PeerRow {
        uri: c.uri,
        up: true,
        inbound: c.inbound,
        key: c.key@,
        priority: c.priority,
        rx_bytes: c.rx,
        tx_bytes: c.tx,
        rx_rate: c.rx_rate,
        tx_rate: c.tx_rate,
        uptime_ns: elapsed(c.up, now),
        latency_ns: if known {
            neighbours[at].latency_ns
        } else {
            0
        },
        cost: if known {
            neighbours[at].cost
        } else {
            0
        },
        last_error: None,
    }
}

/// What is shown of a node that we are told to link to and are not linked to.
pub open spec fn down_row(p: (Seq<char>, Option<Seq<char>>)) -> PeerRow {
    PeerRow {
        uri: p.0,
        up: false,
        inbound: false,
        key: Seq::new(32, |i: int| 0u8),
        priority: 0,
        rx_bytes: 0,
        tx_bytes: 0,
        rx_rate: 0,
        tx_rate: 0,
        uptime_ns: 0,
        latency_ns: 0,
        cost: 0,
        last_error: p.1,
    }
}

/// Whether a link to an address is up.
pub open spec fn linked_to(l: LinksView, uri: Seq<char>) -> bool {
    exists|i: int| 0 <= i < l.connections.len() && (#[trigger] l.connections[i]).1.uri == uri
}

/// The links that are up.
pub open spec fn up_rows(l: LinksView, neighbours: Seq<PeerInfo>, now: u64) -> Seq<PeerRow> {
    Seq::new(l.connections.len(), |i: int| link_row(l.connections[i].1, neighbours, now))
}

/// The nodes among `peers` that we are not linked to.
pub open spec fn down_rows(l: LinksView, peers: Seq<(Seq<char>, Option<Seq<char>>)>) -> Seq<PeerRow>
    decreases peers.len(),
{
    if peers.len() == 0 {
        Seq::empty()
    } else {
        let rest = down_rows(l, peers.drop_last());
        if linked_to(l, peers.last().0) {
            rest
        } else {
            rest.push(down_row(peers.last()))
        }
    }
}

/// Rows in the order of their addresses.
pub open spec fn by_uri(s: Seq<PeerRow>) -> bool {
    forall|i: int, j: int|
        0 <= i < j < s.len() ==> !text_less((#[trigger] s[j]).uri, (#[trigger] s[i]).uri)
}

fn insert_by_uri(v: &mut Vec<LinkPeerInfo>, e: LinkPeerInfo)
    requires
        by_uri(rows(old(v)@)),
    ensures
        by_uri(rows(final(v)@)),
        rows(final(v)@).to_multiset() == rows(old(v)@).to_multiset().insert(e@),
{
    let ghost before = rows(v@);
    let ghost x = e@;
    let mut at: usize = v.len();
    while at > 0 && comes_first(e.uri.as_str(), v[at - 1].uri.as_str())
        invariant
            at <= v@.len(),
            v@ == old(v)@,
            before == rows(v@),
            x == e@,
            forall|j: int| at <= j < before.len() ==> text_less(x.uri, (#[trigger] before[j]).uri),
        decreases at,
    {
        assert(before[at - 1] == v@[at - 1]@);
        at = at - 1;
    }
    proof {
        if at > 0 {
            assert(before[at - 1] == v@[at - 1]@);
        }
        assert forall|i: int| 0 <= i < at implies !text_less(
            x.uri,
            (#[trigger] before[i]).uri,
        ) by {
            if i < at - 1 {
                assert(!text_less(before[at - 1].uri, before[i].uri));
                lemma_text_order(before[at - 1].uri, x.uri, before[i].uri);
            }
        }
        assert forall|j: int| at <= j < before.len() implies !text_less(
            (#[trigger] before[j]).uri,
            x.uri,
        ) by {
            lemma_text_order(x.uri, before[j].uri, x.uri);
        }
        vstd::seq_lib::to_multiset_insert(before, at as int, x);
    }
    v.insert(at, e);
    assert(rows(v@) =~= before.insert(at as int, x));
}

fn find_neighbour(neighbours: &Vec<PeerInfo>, key: &PublicKey) -> (r: usize)
    ensures
        r == first_index(neighbours@, has_row_key(*key)),
        r <= neighbours@.len(),
{
    let mut i: usize = 0;
    while i < neighbours.len() && !key_eq(&neighbours[i].key, key)
        invariant
            i <= neighbours@.len(),
            forall|j: int| 0 <= j < i ==> !has_row_key(*key)(#[trigger] neighbours@[j]),
        decreases neighbours@.len() - i,
    {
        i = i + 1;
    }
    proof {
        lemma_first_index_at(neighbours@, has_row_key(*key), i as int);
    }
    i
}

fn is_linked_to(links: &ActiveLinksInner, uri: &String) -> (r: bool)
    ensures
        r == linked_to(links@, uri@),
{
    let ghost c = links@.connections;
    let mut i: usize = 0;
    while i < links.connections.len()
        invariant
            i <= links.connections@.len(),
            c == links@.connections,
            c.len() == links.connections@.len(),
            forall|j: int| 0 <= j < i ==> (#[trigger] c[j]).1.uri != uri@,
        decreases links.connections@.len() - i,
    {
        assert(c[i as int].1 == links.connections@[i as int].1@);
        if links.connections.value_at(i).uri == *uri {
            return true;
        }
        i = i + 1;
    }
    false
}

/// What is shown of all links: those that are up, and the nodes that we are told to link to and
/// are not linked to, in the order of their addresses.
pub fn link_table(
    links: &ActiveLinksInner,
    book: &PeerBook,
    neighbours: &Vec<PeerInfo>,
    now: u64,
) -> (r: Vec<LinkPeerInfo>)
    ensures
        by_uri(rows(r@)),
        rows(r@).to_multiset() == (up_rows(links@, neighbours@, now) + down_rows(
            links@,
            book@.peers,
        )).to_multiset(),
{
    let ghost up = up_rows(links@, neighbours@, now);
    let mut r: Vec<LinkPeerInfo> = Vec::new();
    let mut i: usize = 0;
    proof {
        assert(up.take(0) =~= Seq::empty());
        assert(rows(r@) =~= Seq::empty());
    }
    while i < links.connections.len()
        invariant
            i <= links.connections@.len(),
            up == up_rows(links@, neighbours@, now),
            up.len() == links.connections@.len(),
            by_uri(rows(r@)),
            rows(r@).to_multiset() == up.take(i as int).to_multiset(),
        decreases links.connections@.len() - i,
    {
        let c = links.connections.value_at(i);
        let at: usize = find_neighbour(neighbours, &c.key);
        let (latency_ns, cost): (u64, u64) = if at < neighbours.len() {
            (neighbours[at].latency_ns, neighbours[at].cost)
        } else {
            (0, 0)
        };
        let row = LinkPeerInfo {
            uri: c.uri.clone(),
            up: true,
            inbound: c.inbound,
            key: c.key,
            priority: c.priority,
            rx_bytes: c.rx,
            tx_bytes: c.tx,
            rx_rate: c.rx_rate,
            tx_rate: c.tx_rate,
            uptime_ns: now.saturating_sub(c.up),
            latency_ns,
            cost,
            last_error: None,
        };
        proof {
            assert(links@.connections[i as int].1 == c@);
            assert(row@ == up[i as int]);
            assert(up.take(i + 1) =~= up.take(i as int).push(row@));
            up.take(i as int).to_multiset_ensures();
        }
        insert_by_uri(&mut r, row);
        i = i + 1;
    }
    assert(up.take(i as int) =~= up);
    let ghost peers = book@.peers;
    let mut i: usize = 0;
    proof {
        assert(peers.take(0) =~= Seq::empty());
        assert(up + down_rows(links@, peers.take(0)) =~= up);
    }
    while i < book.peers.len()
        invariant
            i <= book.peers@.len(),
            peers == book@.peers,
            peers.len() == book.peers@.len(),
            by_uri(rows(r@)),
            rows(r@).to_multiset() == (up + down_rows(
                links@,
                peers.take(i as int),
            )).to_multiset(),
        decreases book.peers@.len() - i,
    {
        proof {
            assert(peers.take(i + 1).drop_last() =~= peers.take(i as int));
            assert(peers.take(i + 1).last() == (
                book.peers@[i as int].uri@,
                text_view(book.peers@[i as int].error),
            ));
        }
        if !is_linked_to(links, &book.peers[i].uri) {
            let row = LinkPeerInfo {
                uri: book.peers[i].uri.clone(),
                up: false,
                inbound: false,
                key: [0u8; 32],
                priority: 0,
                rx_bytes: 0,
                tx_bytes: 0,
                rx_rate: 0,
                tx_rate: 0,
                uptime_ns: 0,
                latency_ns: 0,
                cost: 0,
                last_error: match &book.peers[i].error {
                    Some(e) => Some(e.clone()),
                    None => None,
                },
            };
            proof {
                assert(row@.key =~= Seq::new(32, |i: int| 0u8));
                assert(row@ == down_row(peers[i as int]));
                let before = up + down_rows(links@, peers.take(i as int));
                assert(up + down_rows(links@, peers.take(i + 1)) =~= before.push(row@));
                before.to_multiset_ensures();
            }
            insert_by_uri(&mut r, row);
        }
        i = i + 1;
    }
    assert(peers.take(i as int) =~= peers);
    r
}

/// Whether a link is up.
pub open spec fn any_up(s: Seq<PeerRow>) -> bool {
    exists|i: int| 0 <= i < s.len() && (#[trigger] s[i]).up
}

/// Whether a link is up.
pub fn is_online(table: &Vec<LinkPeerInfo>) -> (r: bool)
    ensures
        r == any_up(rows(table@)),
{
    let mut i: usize = 0;
    while i < table.len()
        invariant
            i <= table@.len(),
            forall|j: int| 0 <= j < i ==> !(#[trigger] rows(table@)[j]).up,
        decreases table@.len() - i,
    {
        assert(rows(table@)[i as int] == table@[i as int]@);
        if table[i].up {
            return true;
        }
        i = i + 1;
    }
    false
}

/// Every link that is up is shown with what it carried, and with the latency and cost that the router has
/// of its neighbour; every node that we are told to link to and are not linked to is shown as down,
/// with its error; and one that we are linked to is not shown as down.
pub proof fn lemma_every_link_is_shown(
    l: LinksView,
    peers: Seq<(Seq<char>, Option<Seq<char>>)>,
    neighbours: Seq<PeerInfo>,
    now: u64,
)
    ensures
        forall|i: int|
            0 <= i < l.connections.len() ==> {
                let c = (#[trigger] l.connections[i]).1;
                let r = up_rows(l, neighbours, now)[i];
                &&& r.up && r.uri == c.uri && r.key == c.key@ && r.inbound == c.inbound && r.priority
                    == c.priority
                &&& r.rx_bytes == c.rx && r.tx_bytes == c.tx && r.rx_rate == c.rx_rate && r.tx_rate
                    == c.tx_rate
                &&& c.up <= now ==> r.uptime_ns == now - c.up
                &&& forall|j: int|
                    0 <= j < neighbours.len() && (#[trigger] neighbours[j]).key == c.key && (forall|k: int|
                        0 <= k < j ==> (#[trigger] neighbours[k]).key != c.key) ==> r.latency_ns
                        == neighbours[j].latency_ns && r.cost == neighbours[j].cost
            },
        up_rows(l, neighbours, now).len() == l.connections.len(),
        forall|i: int|
            0 <= i < peers.len() ==> {
                let shown = exists|k: int|
                    0 <= k < down_rows(l, peers).len() && (#[trigger] down_rows(l, peers)[k]).uri
                        == peers[i].0 && !down_rows(l, peers)[k].up && down_rows(l, peers)[k].last_error
                        == peers[i].1;
                !linked_to(l, (#[trigger] peers[i]).0) ==> shown
            },
        forall|k: int|
            0 <= k < down_rows(l, peers).len() ==> !linked_to(l, (#[trigger] down_rows(l, peers)[k]).uri)
                && !down_rows(l, peers)[k].up,
    decreases peers.len(),
{
    assert forall|i: int| 0 <= i < l.connections.len() implies {
        let c = (#[trigger] l.connections[i]).1;
        let r = up_rows(l, neighbours, now)[i];
        forall|j: int|
            0 <= j < neighbours.len() && (#[trigger] neighbours[j]).key == c.key && (forall|k: int|
                0 <= k < j ==> (#[trigger] neighbours[k]).key != c.key) ==> r.latency_ns
                == neighbours[j].latency_ns && r.cost == neighbours[j].cost
    } by {
        let c = l.connections[i].1;
        let p = has_row_key(c.key);
        crate::seqs::lemma_first_index(neighbours, p);
        let at = first_index(neighbours, p);
        assert forall|j: int|
            0 <= j < neighbours.len() && (#[trigger] neighbours[j]).key == c.key && (forall|k: int|
                0 <= k < j ==> (#[trigger] neighbours[k]).key != c.key) implies at == j by {
            assert(p(neighbours[j]));
            if at < j {
                assert(p(neighbours[at]));
                assert(neighbours[at].key != c.key);
            }
        }
    }
    if peers.len() > 0 {
        let d = peers.drop_last();
        let rest = down_rows(l, d);
        let all = down_rows(l, peers);
        lemma_every_link_is_shown(l, d, neighbours, now);
        assert forall|i: int| 0 <= i < peers.len() && !linked_to(l, (#[trigger] peers[i]).0) implies exists|
            k: int,
        |
            0 <= k < all.len() && (#[trigger] all[k]).uri == peers[i].0 && !all[k].up && all[k].last_error
                == peers[i].1 by {
            if i < d.len() {
                assert(d[i] == peers[i]);
                let k = choose|k: int|
                    0 <= k < rest.len() && (#[trigger] rest[k]).uri == d[i].0 && !rest[k].up
                        && rest[k].last_error == d[i].1;
                assert(all[k] == rest[k]);
            } else {
                assert(all[all.len() - 1] == down_row(peers.last()));
            }
        }
        assert forall|k: int| 0 <= k < all.len() implies !linked_to(l, (#[trigger] all[k]).uri) && !all[k].up by {
            if k < rest.len() {
                assert(all[k] == rest[k]);
                assert(!linked_to(l, rest[k].uri));
            }
        }
    }
}

/// What a message is: one that starts with `01` is a packet of the host, one that starts with `02` is
/// between nodes, and what follows is what it carries. Anything else is neither.
pub proof fn lemma_what_a_message_is(t: u8, data: Seq<u8>)
    ensures
        t == 1 ==> payload_of(seq![t] + data) == PayloadView::Traffic(data),
        t == 2 ==> payload_of(seq![t] + data) == PayloadView::Proto(data),
        t != 1 && t != 2 ==> payload_of(seq![t] + data) is Unknown,
        payload_of(Seq::empty()) is Unknown,
{
    assert((seq![t] + data).drop_first() =~= data);
}

/// A node is online if and only if it has a link that is up, whatever the nodes that it is told to
/// link to, and in whatever order they are shown.
pub proof fn lemma_when_a_node_is_online(
    l: LinksView,
    peers: Seq<(Seq<char>, Option<Seq<char>>)>,
    neighbours: Seq<PeerInfo>,
    now: u64,
    shown: Seq<PeerRow>,
)
    requires
        shown.to_multiset() == (up_rows(l, neighbours, now) + down_rows(l, peers)).to_multiset(),
    ensures
        any_up(shown) <==> l.connections.len() > 0,
{
    let up = up_rows(l, neighbours, now);
    let down = down_rows(l, peers);
    let all = up + down;
    lemma_every_link_is_shown(l, peers, neighbours, now);
    shown.to_multiset_ensures();
    all.to_multiset_ensures();
    if l.connections.len() > 0 {
        let c = l.connections[0];
        assert(all[0] == up[0] && up[0].up);
        assert(all.contains(all[0]));
        assert(shown.to_multiset().count(all[0]) > 0);
        assert(shown.contains(all[0]));
        let i = choose|i: int| 0 <= i < shown.len() && shown[i] == all[0];
        assert(shown[i].up);
    }
    if any_up(shown) {
        let i = choose|i: int| 0 <= i < shown.len() && (#[trigger] shown[i]).up;
        assert(shown.contains(shown[i]));
        assert(all.to_multiset().count(shown[i]) > 0);
        assert(all.contains(shown[i]));
        let k = choose|k: int| 0 <= k < all.len() && all[k] == shown[i];
        if k >= up.len() {
            assert(down[k - up.len()] == shown[i]);
        }
    }
}

} // verus!
