//! Traffic packets and the fair packet queue.
//!
//! The queue groups packets by destination and source. Times are nanoseconds on a clock that
//! never goes back; the caller reads the clock.
use vstd::prelude::*;
use crate::bytes::{copy_u64s, key_eq, to_vec, PublicKey, PUBLIC_KEY_SIZE};
use crate::seqs::{
    first_index, lemma_first_index, lemma_first_index_at, lemma_sum_bounds, lemma_sum_push,
    lemma_sum_remove, lemma_sum_swap_removed, lemma_sum_update, sum, swap_removed,
};
use crate::wire::{path_size, uvarint_size, PeerPort, TrafficView};

verus! {

/// A user traffic packet routed through the network.
#[derive(Debug)]
pub struct TrafficPacket {
    pub path: Vec<PeerPort>,
    pub from: Vec<PeerPort>,
    pub source: PublicKey,
    pub dest: PublicKey,
    pub watermark: u64,
    pub payload: Vec<u8>,
}

impl View for TrafficPacket {
    type V = TrafficView;

    open spec fn view(&self) -> TrafficView {
        TrafficView {
            path: self.path@,
            from: self.from@,
            source: self.source,
            dest: self.dest,
            watermark: self.watermark,
            payload: self.payload@,
        }
    }
}

/// Number of bytes that a packet takes on the wire.
pub open spec fn wire_len(p: TrafficView) -> nat {
    p.bytes().len()
}

impl TrafficPacket {
    /// A packet that has not been routed yet.
    pub fn new(source: PublicKey, dest: PublicKey, payload: Vec<u8>) -> (r: Self)
        ensures
            r@ == (TrafficView {
                path: Seq::empty(),
                from: Seq::empty(),
                source,
                dest,
                watermark: u64::MAX,
                payload: payload@,
            }),
    {
        TrafficPacket {
            path: Vec::new(),
            from: Vec::new(),
            source,
            dest,
            watermark: u64::MAX,
            payload,
        }
    }

    /// Wire size of the packet (used for queue size accounting).
    pub fn wire_size(&self) -> (n: u64)
        requires
            wire_len(self@) <= usize::MAX,
        ensures
            n == wire_len(self@),
            n > 0,
    {
        let n: usize = path_size(&self.path) + path_size(&self.from) + PUBLIC_KEY_SIZE
            + PUBLIC_KEY_SIZE + uvarint_size(self.watermark) + self.payload.len();
        n as u64
    }

    /// Copies the contents of another packet, reusing existing allocations.
    pub fn copy_from(&mut self, other: &TrafficPacket)
        ensures
            final(self)@ == other@,
    {
        self.path.clear();
        self.path.extend_from_slice(&other.path);
        assert(self.path@ =~= other.path@);
        self.from.clear();
        self.from.extend_from_slice(&other.from);
        assert(self.from@ =~= other.from@);
        self.source = other.source;
        self.dest = other.dest;
        self.watermark = other.watermark;
        self.payload.clear();
        self.payload.extend_from_slice(&other.payload);
        assert(self.payload@ =~= other.payload@);
    }
}

/// What an optional packet holds.
pub open spec fn opt_view(p: Option<TrafficPacket>) -> Option<TrafficView> {
    match p {
        Some(t) => Some(t@),
        None => None,
    }
}

impl Clone for TrafficPacket {
    fn clone(&self) -> (r: Self)
        ensures
            r@ == self@,
    {
        TrafficPacket {
            path: copy_u64s(&self.path),
            from: copy_u64s(&self.from),
            source: self.source,
            dest: self.dest,
            watermark: self.watermark,
            payload: to_vec(&self.payload),
        }
    }
}

// ---------------------------------------------------------------------------
// Packet queue: fair per-destination, per-source scheduling
// ---------------------------------------------------------------------------

/// A queued packet, its wire size and the time at which it was queued.
pub struct InfoView {
    pub packet: TrafficView,
    pub size: u64,
    pub time: u64,
}

/// The packets of one flow, oldest first, and their total size.
pub struct SourceView {
    pub key: PublicKey,
    pub infos: Seq<InfoView>,
    pub size: u64,
}

/// The flows to one destination and their total size.
pub struct DestView {
    pub key: PublicKey,
    pub sources: Seq<SourceView>,
    pub size: u64,
}

/// The destinations of a queue and the total size.
pub struct QueueView {
    pub dests: Seq<DestView>,
    pub size: u64,
}

/// Info about a single queued packet.
struct PqPacketInfo {
    packet: TrafficPacket,
    size: u64,
    time: u64,
}

impl PqPacketInfo {
    spec fn view(&self) -> InfoView {
        InfoView { packet: self.packet@, size: self.size, time: self.time }
    }
}

/// Packets from a single source to a single destination.
struct PqSource {
    key: PublicKey,
    infos: Vec<PqPacketInfo>,
    size: u64,
}

spec fn infos_view(v: Seq<PqPacketInfo>) -> Seq<InfoView> {
    Seq::new(v.len(), |i: int| v[i].view())
}

impl PqSource {
    spec fn view(&self) -> SourceView {
        SourceView { key: self.key, infos: infos_view(self.infos@), size: self.size }
    }
}

/// All packets to a single destination, grouped by source.
struct PqDest {
    key: PublicKey,
    sources: Vec<PqSource>,
    size: u64,
}

spec fn sources_view(v: Seq<PqSource>) -> Seq<SourceView> {
    Seq::new(v.len(), |i: int| v[i].view())
}

impl PqDest {
    spec fn view(&self) -> DestView {
        DestView { key: self.key, sources: sources_view(self.sources@), size: self.size }
    }
}

spec fn dests_view(v: Seq<PqDest>) -> Seq<DestView> {
    Seq::new(v.len(), |i: int| v[i].view())
}

/// Fair packet queue: organizes by destination, then source.
///
/// - `push` adds a packet
/// - `pop` removes the oldest packet across all flows (FIFO)
/// - `drop_largest` removes the oldest packet from the largest flow (back-pressure)
pub struct PacketQueue {
    dests: Vec<PqDest>,
    size: u64,
}

impl View for PacketQueue {
    type V = QueueView;

    closed spec fn view(&self) -> QueueView {
        QueueView { dests: dests_view(self.dests@), size: self.size }
    }
}

/// A flow is never empty, and its size is the sum of the sizes of its packets, which all
/// belong to it.
pub open spec fn source_wf(s: SourceView, dest: PublicKey) -> bool {
    &&& s.infos.len() > 0
    &&& s.size == sum(s.infos, |i: InfoView| i.size as int)
    &&& forall|i: int|
        0 <= i < s.infos.len() ==> {
            &&& (#[trigger] s.infos[i]).size == wire_len(s.infos[i].packet)
            &&& s.infos[i].size > 0
            &&& s.infos[i].packet.source == s.key
            &&& s.infos[i].packet.dest == dest
        }
}

/// A destination has at least one flow, one for each source, and its size is their sum.
pub open spec fn dest_wf(d: DestView) -> bool {
    &&& d.sources.len() > 0
    &&& d.size == sum(d.sources, |s: SourceView| s.size as int)
    &&& forall|i: int| 0 <= i < d.sources.len() ==> source_wf(#[trigger] d.sources[i], d.key)
    &&& forall|i: int, j: int|
        0 <= i < j < d.sources.len() ==> d.sources[i].key != d.sources[j].key
}

/// The queue invariant: one entry for each destination, and the sizes add up.
pub open spec fn queue_wf(q: QueueView) -> bool {
    &&& q.size == sum(q.dests, |d: DestView| d.size as int)
    &&& forall|i: int| 0 <= i < q.dests.len() ==> dest_wf(#[trigger] q.dests[i])
    &&& forall|i: int, j: int| 0 <= i < j < q.dests.len() ==> q.dests[i].key != q.dests[j].key
}

/// Position of the flow of `key` among the flows of a destination.
pub open spec fn find_source(sources: Seq<SourceView>, key: PublicKey) -> int {
    first_index(sources, |s: SourceView| s.key == key)
}

/// Position of the destination `key`.
pub open spec fn find_dest(dests: Seq<DestView>, key: PublicKey) -> int {
    first_index(dests, |d: DestView| d.key == key)
}

/// A flow after a packet was queued in it.
pub open spec fn source_pushed(s: SourceView, i: InfoView) -> SourceView {
    SourceView { key: s.key, infos: s.infos.push(i), size: (s.size + i.size) as u64 }
}

/// A destination after a packet was queued for it: in its flow, or in a new last one.
pub open spec fn dest_pushed(d: DestView, i: InfoView) -> DestView {
    let at = find_source(d.sources, i.packet.source);
    let empty = SourceView { key: i.packet.source, infos: Seq::empty(), size: 0 };
    DestView {
        key: d.key,
        sources: if at < d.sources.len() {
            d.sources.update(at, source_pushed(d.sources[at], i))
        } else {
            d.sources.push(source_pushed(empty, i))
        },
        size: (d.size + i.size) as u64,
    }
}

/// A queue after a packet was queued: under its destination, or under a new last one.
pub open spec fn queue_pushed(q: QueueView, i: InfoView) -> QueueView {
    let at = find_dest(q.dests, i.packet.dest);
    let empty = DestView { key: i.packet.dest, sources: Seq::empty(), size: 0 };
    QueueView {
        dests: if at < q.dests.len() {
            q.dests.update(at, dest_pushed(q.dests[at], i))
        } else {
            q.dests.push(dest_pushed(empty, i))
        },
        size: (q.size + i.size) as u64,
    }
}

/// A destination after the front packet of its flow `si` was taken: a flow that runs empty
/// goes, and the last one takes its place.
pub open spec fn dest_taken(d: DestView, si: int) -> DestView {
    let s = d.sources[si];
    let size = s.infos[0].size;
    let rest = SourceView {
        key: s.key,
        infos: s.infos.remove(0),
        size: (s.size - size) as u64,
    };
    DestView {
        key: d.key,
        sources: if s.infos.len() == 1 {
            swap_removed(d.sources, si)
        } else {
            d.sources.update(si, rest)
        },
        size: (d.size - size) as u64,
    }
}

/// A queue after the front packet of flow `si` to destination `di` was taken.
pub open spec fn queue_taken(q: QueueView, di: int, si: int) -> QueueView {
    let d = q.dests[di];
    let size = d.sources[si].infos[0].size;
    QueueView {
        dests: if d.sources.len() == 1 && d.sources[si].infos.len() == 1 {
            swap_removed(q.dests, di)
        } else {
            q.dests.update(di, dest_taken(d, si))
        },
        size: (q.size - size) as u64,
    }
}

/// The flow whose front packet has waited longest, the first of them among equals.
pub open spec fn oldest_flow(q: QueueView, di: int, si: int) -> bool {
    &&& 0 <= di < q.dests.len()
    &&& 0 <= si < q.dests[di].sources.len()
    &&& forall|d: int, s: int|
        0 <= d < q.dests.len() && 0 <= s < q.dests[d].sources.len() ==> {
            let t = q.dests[di].sources[si].infos[0].time;
            let u = (#[trigger] q.dests[d].sources[s]).infos[0].time;
            if d < di || (d == di && s < si) {
                t < u
            } else {
                t <= u
            }
        }
}

/// The largest flow of the largest destination, the last of them among equals.
pub open spec fn largest_flow(q: QueueView, di: int, si: int) -> bool {
    &&& 0 <= di < q.dests.len()
    &&& 0 <= si < q.dests[di].sources.len()
    &&& forall|d: int|
        0 <= d < q.dests.len() ==> if d > di {
            (#[trigger] q.dests[d]).size < q.dests[di].size
        } else {
            q.dests[d].size <= q.dests[di].size
        }
    &&& forall|s: int|
        0 <= s < q.dests[di].sources.len() ==> if s > si {
            (#[trigger] q.dests[di].sources[s]).size < q.dests[di].sources[si].size
        } else {
            q.dests[di].sources[s].size <= q.dests[di].sources[si].size
        }
}

proof fn lemma_source_pushed_wf(s: SourceView, i: InfoView, dest: PublicKey)
    requires
        source_wf(s, dest) || (s.infos.len() == 0 && s.size == 0),
        i.packet.source == s.key,
        i.packet.dest == dest,
        i.size == wire_len(i.packet),
        i.size > 0,
        s.size + i.size <= u64::MAX,
    ensures
        source_wf(source_pushed(s, i), dest),
{
    lemma_sum_push(s.infos, i, |i: InfoView| i.size as int);
}

proof fn lemma_dest_pushed_wf(d: DestView, i: InfoView)
    requires
        dest_wf(d) || (d.sources.len() == 0 && d.size == 0),
        i.packet.dest == d.key,
        i.size == wire_len(i.packet),
        i.size > 0,
        d.size + i.size <= u64::MAX,
    ensures
        dest_wf(dest_pushed(d, i)),
{
    let f = |s: SourceView| s.size as int;
    let key = i.packet.source;
    let p = |s: SourceView| s.key == key;
    lemma_first_index(d.sources, p);
    lemma_sum_bounds(d.sources, f);
    let at = find_source(d.sources, key);
    let n = dest_pushed(d, i);
    if at < d.sources.len() {
        assert(f(d.sources[at]) <= sum(d.sources, f));
        lemma_source_pushed_wf(d.sources[at], i, d.key);
        lemma_sum_update(d.sources, at, source_pushed(d.sources[at], i), f);
    } else {
        let empty = SourceView { key: i.packet.source, infos: Seq::empty(), size: 0 };
        lemma_source_pushed_wf(empty, i, d.key);
        lemma_sum_push(d.sources, source_pushed(empty, i), f);
    }
}

proof fn lemma_queue_pushed_wf(q: QueueView, i: InfoView)
    requires
        queue_wf(q),
        i.size == wire_len(i.packet),
        i.size > 0,
        q.size + i.size <= u64::MAX,
    ensures
        queue_wf(queue_pushed(q, i)),
        queue_pushed(q, i).size == q.size + i.size,
{
    let f = |d: DestView| d.size as int;
    let key = i.packet.dest;
    lemma_first_index(q.dests, |d: DestView| d.key == key);
    lemma_sum_bounds(q.dests, f);
    let at = find_dest(q.dests, key);
    if at < q.dests.len() {
        assert(f(q.dests[at]) <= sum(q.dests, f));
        lemma_dest_pushed_wf(q.dests[at], i);
        lemma_sum_update(q.dests, at, dest_pushed(q.dests[at], i), f);
    } else {
        let empty = DestView { key: i.packet.dest, sources: Seq::empty(), size: 0 };
        lemma_dest_pushed_wf(empty, i);
        lemma_sum_push(q.dests, dest_pushed(empty, i), f);
    }
}

proof fn lemma_source_front(s: SourceView, dest: PublicKey)
    requires
        source_wf(s, dest),
    ensures
        s.infos[0].size <= s.size,
        s.infos[0].size > 0,
        s.infos.len() == 1 ==> s.infos[0].size == s.size,
        s.infos.len() > 1 ==> source_wf(
            SourceView {
                key: s.key,
                infos: s.infos.remove(0),
                size: (s.size - s.infos[0].size) as u64,
            },
            dest,
        ),
{
    let f = |i: InfoView| i.size as int;
    lemma_sum_bounds(s.infos, f);
    assert(f(s.infos[0]) <= sum(s.infos, f));
    lemma_sum_remove(s.infos, 0, f);
    if s.infos.len() == 1 {
        assert(s.infos.remove(0) =~= Seq::empty());
        assert(sum(s.infos.remove(0), f) == 0);
    }
}

proof fn lemma_dest_taken_wf(d: DestView, si: int)
    requires
        dest_wf(d),
        0 <= si < d.sources.len(),
    ensures
        d.sources[si].infos[0].size <= d.sources[si].size <= d.size,
        d.sources[si].infos[0].size > 0,
        !(d.sources.len() == 1 && d.sources[si].infos.len() == 1) ==> dest_wf(dest_taken(d, si)),
        (d.sources.len() == 1 && d.sources[si].infos.len() == 1) ==> d.size
            == d.sources[si].infos[0].size,
{
    let f = |s: SourceView| s.size as int;
    let s = d.sources[si];
    lemma_source_front(s, d.key);
    lemma_sum_bounds(d.sources, f);
    assert(f(d.sources[si]) <= sum(d.sources, f));
    let rest = SourceView {
        key: s.key,
        infos: s.infos.remove(0),
        size: (s.size - s.infos[0].size) as u64,
    };
    let n = dest_taken(d, si);
    if s.infos.len() == 1 {
        lemma_sum_swap_removed(d.sources, si, f);
        if d.sources.len() == 1 {
            assert(swap_removed(d.sources, si) =~= Seq::empty());
            assert(sum(swap_removed(d.sources, si), f) == 0);
        } else {
            let last = d.sources.len() - 1;
            assert forall|i: int| 0 <= i < n.sources.len() implies #[trigger] n.sources[i] == (if i
                == si {
                d.sources[last]
            } else {
                d.sources[i]
            }) by {}
            assert(dest_wf(n));
        }
    } else {
        lemma_sum_update(d.sources, si, rest, f);
        assert(dest_wf(n));
    }
}

proof fn lemma_queue_taken_wf(q: QueueView, di: int, si: int)
    requires
        queue_wf(q),
        0 <= di < q.dests.len(),
        0 <= si < q.dests[di].sources.len(),
    ensures
        queue_wf(queue_taken(q, di, si)),
        queue_taken(q, di, si).size == q.size - q.dests[di].sources[si].infos[0].size,
        q.dests[di].sources[si].infos[0].size <= q.dests[di].sources[si].size <= q.dests[di].size
            <= q.size,
{
    let f = |d: DestView| d.size as int;
    let d = q.dests[di];
    lemma_dest_taken_wf(d, si);
    lemma_sum_bounds(q.dests, f);
    assert(f(q.dests[di]) <= sum(q.dests, f));
    let n = queue_taken(q, di, si);
    if d.sources.len() == 1 && d.sources[si].infos.len() == 1 {
        lemma_sum_swap_removed(q.dests, di, f);
        let last = q.dests.len() - 1;
        assert forall|i: int| 0 <= i < n.dests.len() implies #[trigger] n.dests[i] == (if i == di {
            q.dests[last]
        } else {
            q.dests[i]
        }) by {}
    } else {
        lemma_sum_update(q.dests, di, dest_taken(d, si), f);
    }
}

impl PqSource {
    fn push(&mut self, info: PqPacketInfo)
        requires
            old(self).size + info.size <= u64::MAX,
        ensures
            final(self).view() == source_pushed(old(self).view(), info.view()),
    {
        self.size = self.size + info.size;
        self.infos.push(info);
        assert(infos_view(self.infos@) =~= infos_view(old(self).infos@).push(info.view()));
    }
}

impl PqDest {
    fn push(&mut self, info: PqPacketInfo)
        requires
            dest_wf(old(self).view()) || (old(self).sources@.len() == 0 && old(self).size == 0),
            old(self).size + info.size <= u64::MAX,
        ensures
            final(self).view() == dest_pushed(old(self).view(), info.view()),
    {
        let key = info.packet.source;
        let ghost before = self.view().sources;
        let mut i: usize = 0;
        let n: usize = self.sources.len();
        while i < n && !key_eq(&self.sources[i].key, &key)
            invariant
                i <= n,
                n == self.sources@.len(),
                *self == *old(self),
                forall|j: int| 0 <= j < i ==> self.sources@[j].key != key,
            decreases n - i,
        {
            i += 1;
        }
        proof {
            assert forall|j: int| 0 <= j < i implies (#[trigger] before[j]).key != key by {}
            lemma_first_index_at(before, |s: SourceView| s.key == key, i as int);
            lemma_sum_bounds(before, |s: SourceView| s.size as int);
        }
        if i < n {
            let ghost f = |s: SourceView| s.size as int;
            assert(f(before[i as int]) <= sum(before, f));
            self.size = self.size + info.size;
            self.sources[i].push(info);
            assert(sources_view(self.sources@) =~= before.update(
                i as int,
                source_pushed(before[i as int], info.view()),
            ));
        } else {
            self.size = self.size + info.size;
            let mut s = PqSource { key, infos: Vec::new(), size: 0 };
            assert(s.view().infos =~= Seq::empty());
            s.push(info);
            let ghost sv = s.view();
            self.sources.push(s);
            assert(sources_view(self.sources@) =~= before.push(sv));
        }
    }

    /// Takes the front packet of flow `si`.
    fn take(&mut self, si: usize) -> (r: PqPacketInfo)
        requires
            dest_wf(old(self).view()),
            si < old(self).sources@.len(),
        ensures
            final(self).view() == dest_taken(old(self).view(), si as int),
            r.view() == old(self).view().sources[si as int].infos[0],
    {
        let ghost d = self.view();
        proof {
            lemma_dest_taken_wf(d, si as int);
            assert(d.sources[si as int].infos.len() == self.sources@[si as int].infos@.len());
        }
        let info = self.sources[si].infos.remove(0);
        assert(info.view() == d.sources[si as int].infos[0]);
        self.sources[si].size = self.sources[si].size - info.size;
        self.size = self.size - info.size;
        let ghost mid = self.sources@;
        assert(infos_view(mid[si as int].infos@) =~= d.sources[si as int].infos.remove(0));
        if self.sources[si].infos.len() == 0 {
            self.sources.swap_remove(si);
            assert(sources_view(self.sources@) =~= swap_removed(d.sources, si as int));
        } else {
            let ghost rest = dest_taken(d, si as int).sources[si as int];
            assert(sources_view(self.sources@) =~= dest_taken(d, si as int).sources);
        }
        info
    }
}

/// The flow that `pop` serves.
pub open spec fn oldest_of(q: QueueView) -> (int, int) {
    choose|p: (int, int)| oldest_flow(q, p.0, p.1)
}

/// The flow that `drop_largest` cuts.
pub open spec fn largest_of(q: QueueView) -> (int, int) {
    choose|p: (int, int)| largest_flow(q, p.0, p.1)
}

/// The time at which the packet that `pop` gives was queued.
pub open spec fn oldest_time(q: QueueView) -> u64 {
    let (di, si) = oldest_of(q);
    q.dests[di].sources[si].infos[0].time
}

proof fn lemma_oldest_unique(q: QueueView, di: int, si: int)
    requires
        oldest_flow(q, di, si),
    ensures
        oldest_of(q) == (di, si),
{
    let p = (di, si);
    assert(oldest_flow(q, p.0, p.1));
    let (a, b) = oldest_of(q);
    assert(oldest_flow(q, a, b));
    let x = q.dests[a].sources[b];
    let y = q.dests[di].sources[si];
}

proof fn lemma_largest_unique(q: QueueView, di: int, si: int)
    requires
        largest_flow(q, di, si),
    ensures
        largest_of(q) == (di, si),
{
    let p = (di, si);
    assert(largest_flow(q, p.0, p.1));
    let (a, b) = largest_of(q);
    assert(largest_flow(q, a, b));
    let x = q.dests[a].sources[b];
    let y = q.dests[di].sources[si];
    assert(q.dests[a].size <= q.dests[di].size);
    assert(q.dests[di].size <= q.dests[a].size);
}

/// A queue has no bytes exactly when it has no packets.
pub proof fn lemma_empty_queue(q: QueueView)
    requires
        queue_wf(q),
    ensures
        (q.size == 0) == (q.dests.len() == 0),
{
    let f = |d: DestView| d.size as int;
    if q.dests.len() > 0 {
        assert(dest_wf(q.dests[0]));
        lemma_dest_taken_wf(q.dests[0], 0);
        lemma_sum_bounds(q.dests, f);
        assert(f(q.dests[0]) <= sum(q.dests, f));
    }
}

impl PacketQueue {
    /// The queue invariant.
    pub open spec fn wf(&self) -> bool {
        queue_wf(self@)
    }

    /// An empty queue.
    pub fn new() -> (r: Self)
        ensures
            r.wf(),
            r@ == (QueueView { dests: Seq::empty(), size: 0 }),
    {
        let r = PacketQueue { dests: Vec::new(), size: 0 };
        assert(r@.dests =~= Seq::empty());
        r
    }

    /// Whether no packet is queued.
    pub fn is_empty(&self) -> (r: bool)
        requires
            self.wf(),
        ensures
            r == (self@.size == 0),
            r == (self@.dests.len() == 0),
    {
        proof {
            lemma_empty_queue(self@);
        }
        self.size == 0
    }

    /// Adds a packet to the queue at time `now`.
    pub fn push(&mut self, packet: TrafficPacket, now: u64)
        requires
            old(self).wf(),
            wire_len(packet@) <= usize::MAX,
            old(self)@.size + wire_len(packet@) <= u64::MAX,
        ensures
            final(self).wf(),
            final(self)@ == queue_pushed(
                old(self)@,
                InfoView { packet: packet@, size: wire_len(packet@) as u64, time: now },
            ),
    {
        let key = packet.dest;
        let pkt_size: u64 = packet.wire_size();
        let info = PqPacketInfo { packet, size: pkt_size, time: now };
        let ghost iv = info.view();
        let ghost before = self@.dests;
        proof {
            lemma_queue_pushed_wf(self@, iv);
        }
        let mut i: usize = 0;
        let n: usize = self.dests.len();
        while i < n && !key_eq(&self.dests[i].key, &key)
            invariant
                i <= n,
                n == self.dests@.len(),
                *self == *old(self),
                forall|j: int| 0 <= j < i ==> self.dests@[j].key != key,
            decreases n - i,
        {
            i += 1;
        }
        let ghost f = |d: DestView| d.size as int;
        proof {
            assert forall|j: int| 0 <= j < i implies (#[trigger] before[j]).key != key by {}
            lemma_first_index_at(before, |d: DestView| d.key == key, i as int);
            lemma_sum_bounds(before, f);
        }
        if i < n {
            assert(f(before[i as int]) <= sum(before, f));
            assert(dest_wf(before[i as int]));
            self.dests[i].push(info);
            assert(dests_view(self.dests@) =~= before.update(
                i as int,
                dest_pushed(before[i as int], iv),
            ));
        } else {
            let mut d = PqDest { key, sources: Vec::new(), size: 0 };
            assert(d.view().sources =~= Seq::empty());
            d.push(info);
            let ghost dv = d.view();
            self.dests.push(d);
            assert(dests_view(self.dests@) =~= before.push(dv));
        }
        self.size = self.size + pkt_size;
    }

    /// Takes the front packet of flow `si` to destination `di`.
    fn take(&mut self, di: usize, si: usize) -> (r: PqPacketInfo)
        requires
            old(self).wf(),
            di < old(self)@.dests.len(),
            si < old(self)@.dests[di as int].sources.len(),
        ensures
            final(self).wf(),
            final(self)@ == queue_taken(old(self)@, di as int, si as int),
            r.view() == old(self)@.dests[di as int].sources[si as int].infos[0],
    {
        let ghost q = self@;
        proof {
            lemma_queue_taken_wf(q, di as int, si as int);
            lemma_dest_taken_wf(q.dests[di as int], si as int);
        }
        let info = self.dests[di].take(si);
        self.size = self.size - info.size;
        assert(dests_view(self.dests@) =~= q.dests.update(
            di as int,
            dest_taken(q.dests[di as int], si as int),
        ));
        assert(self.dests@[di as int].view() == dests_view(self.dests@)[di as int]);
        assert(self.dests@[di as int].sources@.len() == dest_taken(
            q.dests[di as int],
            si as int,
        ).sources.len());
        if self.dests[di].sources.len() == 0 {
            self.dests.swap_remove(di);
            assert(dests_view(self.dests@) =~= swap_removed(q.dests, di as int));
        }
        info
    }

    /// Position of the flow whose front packet has waited longest.
    fn find_oldest(&self) -> (r: (usize, usize))
        requires
            self.wf(),
            self@.dests.len() > 0,
        ensures
            oldest_flow(self@, r.0 as int, r.1 as int),
    {
        let ghost q = self@;
        assert(dest_wf(q.dests[0]));
        assert(source_wf(q.dests[0].sources[0], q.dests[0].key));
        let mut best: (usize, usize) = (0, 0);
        let mut best_time: u64 = self.dests[0].sources[0].infos[0].time;
        let mut i: usize = 0;
        while i < self.dests.len()
            invariant
                self.wf(),
                q == self@,
                i <= self.dests.len(),
                best.0 < q.dests.len(),
                best.1 < q.dests[best.0 as int].sources.len(),
                best_time == q.dests[best.0 as int].sources[best.1 as int].infos[0].time,
                (best.0 < i || (best.0 == 0 && best.1 == 0)),
                forall|d: int, s: int|
                    0 <= d < i && 0 <= s < q.dests[d].sources.len() ==> {
                        let u = (#[trigger] q.dests[d].sources[s]).infos[0].time;
                        if d < best.0 || (d == best.0 && s < best.1) {
                            best_time < u
                        } else {
                            best_time <= u
                        }
                    },
            decreases self.dests.len() - i,
        {
            assert(dest_wf(q.dests[i as int]));
            let mut j: usize = 0;
            while j < self.dests[i as usize].sources.len()
                invariant
                    self.wf(),
                    q == self@,
                    i < self.dests.len(),
                    dest_wf(q.dests[i as int]),
                    j <= self.dests@[i as int].sources@.len(),
                    best.0 < q.dests.len(),
                    best.1 < q.dests[best.0 as int].sources.len(),
                    best_time == q.dests[best.0 as int].sources[best.1 as int].infos[0].time,
                    (best.0 < i || (best.0 == i && best.1 < j) || (best.0 == 0 && best.1 == 0)),
                    forall|d: int, s: int|
                        (0 <= d < i && 0 <= s < q.dests[d].sources.len()) || (d == i && 0 <= s < j)
                            ==> {
                            let u = (#[trigger] q.dests[d].sources[s]).infos[0].time;
                            if d < best.0 || (d == best.0 && s < best.1) {
                                best_time < u
                            } else {
                                best_time <= u
                            }
                        },
                decreases self.dests@[i as int].sources@.len() - j,
            {
                assert(source_wf(q.dests[i as int].sources[j as int], q.dests[i as int].key));
                let t: u64 = self.dests[i].sources[j].infos[0].time;
                assert(t == q.dests[i as int].sources[j as int].infos[0].time);
                if t < best_time {
                    best = (i, j);
                    best_time = t;
                }
                j += 1;
            }
            i += 1;
        }
        best
    }

    /// Removes and returns the oldest packet across all flows (FIFO).
    pub fn pop(&mut self) -> (r: Option<TrafficPacket>)
        requires
            old(self).wf(),
        ensures
            final(self).wf(),
            match r {
                Some(p) => {
                    let (di, si) = oldest_of(old(self)@);
                    &&& oldest_flow(old(self)@, di, si)
                    &&& p@ == old(self)@.dests[di].sources[si].infos[0].packet
                    &&& final(self)@ == queue_taken(old(self)@, di, si)
                },
                None => old(self)@.dests.len() == 0 && final(self)@ == old(self)@,
            },
    {
        if self.is_empty() {
            return None;
        }
        let (di, si) = self.find_oldest();
        proof {
            lemma_oldest_unique(self@, di as int, si as int);
        }
        let info = self.take(di, si);
        Some(info.packet)
    }

    /// Drops the oldest packet from the largest flow (for back-pressure).
    /// Returns true if a packet was dropped.
    pub fn drop_largest(&mut self) -> (r: bool)
        requires
            old(self).wf(),
        ensures
            final(self).wf(),
            r == (old(self)@.dests.len() > 0),
            if r {
                let (di, si) = largest_of(old(self)@);
                &&& largest_flow(old(self)@, di, si)
                &&& final(self)@ == queue_taken(old(self)@, di, si)
            } else {
                final(self)@ == old(self)@
            },
    {
        if self.is_empty() {
            return false;
        }
        let ghost q = self@;
        let mut di: usize = 0;
        let mut i: usize = 1;
        while i < self.dests.len()
            invariant
                *self == *old(self),
                q == self@,
                1 <= i <= self.dests.len(),
                di < i,
                forall|d: int|
                    0 <= d < i ==> if d > di {
                        (#[trigger] q.dests[d]).size < q.dests[di as int].size
                    } else {
                        q.dests[d].size <= q.dests[di as int].size
                    },
            decreases self.dests.len() - i,
        {
            assert(q.dests[i as int].size == self.dests@[i as int].size);
            if self.dests[i].size >= self.dests[di].size {
                di = i;
            }
            i += 1;
        }
        assert(dest_wf(q.dests[di as int]));
        let mut si: usize = 0;
        let mut j: usize = 1;
        while j < self.dests[di].sources.len()
            invariant
                *self == *old(self),
                q == self@,
                di < self.dests.len(),
                1 <= j <= q.dests[di as int].sources.len(),
                si < j,
                forall|s: int|
                    0 <= s < j ==> if s > si {
                        (#[trigger] q.dests[di as int].sources[s]).size
                            < q.dests[di as int].sources[si as int].size
                    } else {
                        q.dests[di as int].sources[s].size
                            <= q.dests[di as int].sources[si as int].size
                    },
            decreases q.dests[di as int].sources.len() - j,
        {
            assert(q.dests[di as int].sources[j as int].size
                == self.dests@[di as int].sources@[j as int].size);
            if self.dests[di].sources[j].size >= self.dests[di].sources[si].size {
                si = j;
            }
            j += 1;
        }
        proof {
            assert(largest_flow(q, di as int, si as int));
            lemma_largest_unique(q, di as int, si as int);
        }
        let _ = self.take(di, si);
        true
    }

    /// The total of queued bytes.
    pub fn size(&self) -> (r: u64)
        ensures
            r == self@.size,
    {
        self.size
    }

    /// How long, at time `now`, the oldest packet in the queue has waited.
    pub fn oldest_age(&self, now: u64) -> (r: Option<u64>)
        requires
            self.wf(),
        ensures
            match r {
                Some(age) => self@.dests.len() > 0 && age == elapsed(oldest_time(self@), now),
                None => self@.dests.len() == 0,
            },
    {
        if self.dests.len() == 0 {
            return None;
        }
        let (di, si) = self.find_oldest();
        proof {
            lemma_oldest_unique(self@, di as int, si as int);
            assert(dest_wf(self@.dests[di as int]));
            assert(source_wf(
                self@.dests[di as int].sources[si as int],
                self@.dests[di as int].key,
            ));
        }
        Some(now.saturating_sub(self.dests[di].sources[si].infos[0].time))
    }
}

/// Time that has passed from `from` until `now`; none if `now` lies before `from`.
pub open spec fn elapsed(from: u64, now: u64) -> u64 {
    if now >= from {
        (now - from) as u64
    } else {
        0
    }
}

// ---------------------------------------------------------------------------
// Laws of the queue
// ---------------------------------------------------------------------------

/// One for `x`, zero for every other packet.
pub open spec fn same_as(i: InfoView, x: InfoView) -> int {
    if i == x {
        1
    } else {
        0
    }
}

/// How often `x` is queued in a flow.
pub open spec fn source_count(s: SourceView, x: InfoView) -> int {
    sum(s.infos, |i: InfoView| same_as(i, x))
}

/// How often `x` is queued for a destination.
pub open spec fn dest_count(d: DestView, x: InfoView) -> int {
    sum(d.sources, |s: SourceView| source_count(s, x))
}

/// How often `x` is queued.
pub open spec fn queue_count(q: QueueView, x: InfoView) -> int {
    sum(q.dests, |d: DestView| dest_count(d, x))
}

proof fn lemma_dest_push_count(d: DestView, i: InfoView, x: InfoView)
    ensures
        dest_count(dest_pushed(d, i), x) == dest_count(d, x) + same_as(i, x),
{
    let key = i.packet.source;
    let f = |s: SourceView| source_count(s, x);
    let g = |i: InfoView| same_as(i, x);
    lemma_first_index(d.sources, |s: SourceView| s.key == key);
    let at = find_source(d.sources, key);
    if at < d.sources.len() {
        lemma_sum_push(d.sources[at].infos, i, g);
        lemma_sum_update(d.sources, at, source_pushed(d.sources[at], i), f);
    } else {
        let empty = SourceView { key: i.packet.source, infos: Seq::empty(), size: 0 };
        lemma_sum_push(empty.infos, i, g);
        lemma_sum_push(d.sources, source_pushed(empty, i), f);
    }
}

/// Queueing a packet adds exactly that packet: everything else stays as often as it was there.
pub proof fn lemma_push_conserves(q: QueueView, i: InfoView, x: InfoView)
    ensures
        queue_count(queue_pushed(q, i), x) == queue_count(q, x) + same_as(i, x),
{
    let key = i.packet.dest;
    let f = |d: DestView| dest_count(d, x);
    lemma_first_index(q.dests, |d: DestView| d.key == key);
    let at = find_dest(q.dests, key);
    if at < q.dests.len() {
        lemma_dest_push_count(q.dests[at], i, x);
        lemma_sum_update(q.dests, at, dest_pushed(q.dests[at], i), f);
    } else {
        let empty = DestView { key: i.packet.dest, sources: Seq::empty(), size: 0 };
        lemma_dest_push_count(empty, i, x);
        lemma_sum_push(q.dests, dest_pushed(empty, i), f);
    }
}

/// Taking the front packet of a flow takes exactly that packet: everything else stays as
/// often as it was there.
pub proof fn lemma_take_conserves(q: QueueView, di: int, si: int, x: InfoView)
    requires
        queue_wf(q),
        0 <= di < q.dests.len(),
        0 <= si < q.dests[di].sources.len(),
    ensures
        queue_count(queue_taken(q, di, si), x) == queue_count(q, x) - same_as(
            q.dests[di].sources[si].infos[0],
            x,
        ),
{
    let d = q.dests[di];
    assert(dest_wf(d));
    let s = d.sources[si];
    assert(source_wf(s, d.key));
    let fd = |d: DestView| dest_count(d, x);
    let fs = |s: SourceView| source_count(s, x);
    let g = |i: InfoView| same_as(i, x);
    lemma_sum_remove(s.infos, 0, g);
    let rest = SourceView {
        key: s.key,
        infos: s.infos.remove(0),
        size: (s.size - s.infos[0].size) as u64,
    };
    if s.infos.len() == 1 {
        assert(s.infos.remove(0) =~= Seq::empty());
        assert(sum(s.infos.remove(0), g) == 0);
        lemma_sum_swap_removed(d.sources, si, fs);
        if d.sources.len() == 1 {
            assert(swap_removed(d.sources, si) =~= Seq::empty());
            assert(sum(swap_removed(d.sources, si), fs) == 0);
            lemma_sum_swap_removed(q.dests, di, fd);
        } else {
            lemma_sum_update(q.dests, di, dest_taken(d, si), fd);
        }
    } else {
        lemma_sum_update(d.sources, si, rest, fs);
        lemma_sum_update(q.dests, di, dest_taken(d, si), fd);
    }
}

/// Every flow holds its packets in the order in which they were queued.
pub open spec fn ordered(q: QueueView) -> bool {
    forall|d: int, s: int, i: int, j: int|
        #![trigger q.dests[d].sources[s].infos[i], q.dests[d].sources[s].infos[j]]
        0 <= d < q.dests.len() && 0 <= s < q.dests[d].sources.len() && 0 <= i <= j
            < q.dests[d].sources[s].infos.len() ==> q.dests[d].sources[s].infos[i].time
            <= q.dests[d].sources[s].infos[j].time
}

/// No packet was queued after `now`.
pub open spec fn not_after(q: QueueView, now: u64) -> bool {
    forall|d: int, s: int, i: int|
        0 <= d < q.dests.len() && 0 <= s < q.dests[d].sources.len() && 0 <= i
            < q.dests[d].sources[s].infos.len() ==> (#[trigger] q.dests[d].sources[s].infos[i]).time
            <= now
}

/// Flows stay in order when packets are queued at the present time.
pub proof fn lemma_push_keeps_order(q: QueueView, i: InfoView)
    requires
        ordered(q),
        not_after(q, i.time),
    ensures
        ordered(queue_pushed(q, i)),
        not_after(queue_pushed(q, i), i.time),
{
    let n = queue_pushed(q, i);
    let dkey = i.packet.dest;
    let skey = i.packet.source;
    lemma_first_index(q.dests, |d: DestView| d.key == dkey);
    let di = find_dest(q.dests, dkey);
    let old_d = if di < q.dests.len() {
        q.dests[di]
    } else {
        DestView { key: dkey, sources: Seq::empty(), size: 0 }
    };
    lemma_first_index(old_d.sources, |s: SourceView| s.key == skey);
    let si = find_source(old_d.sources, skey);
    assert forall|d: int, s: int, a: int|
        0 <= d < n.dests.len() && 0 <= s < n.dests[d].sources.len() && 0 <= a
            < n.dests[d].sources[s].infos.len() implies ({
        let x = #[trigger] n.dests[d].sources[s].infos[a];
        if d == di && s == si && a == n.dests[d].sources[s].infos.len() - 1 {
            x == i
        } else {
            d < q.dests.len() && s < q.dests[d].sources.len() && a
                < q.dests[d].sources[s].infos.len() && x == q.dests[d].sources[s].infos[a]
        }
    }) by {
        if d == di {
            assert(n.dests[d] == dest_pushed(old_d, i));
        } else {
            assert(n.dests[d] == q.dests[d]);
        }
    }
}

/// The packet that `pop` serves was queued no later than any other: the queue is first in,
/// first out across all flows.
pub proof fn lemma_pop_serves_oldest(q: QueueView, di: int, si: int, d: int, s: int, i: int)
    requires
        ordered(q),
        oldest_flow(q, di, si),
        0 <= d < q.dests.len(),
        0 <= s < q.dests[d].sources.len(),
        0 <= i < q.dests[d].sources[s].infos.len(),
    ensures
        q.dests[di].sources[si].infos[0].time <= q.dests[d].sources[s].infos[i].time,
{
    let a = q.dests[d].sources[s];
    assert(a.infos[0].time <= a.infos[i].time);
}

/// Flows stay in order when a packet is taken from the front of one.
pub proof fn lemma_take_keeps_order(q: QueueView, di: int, si: int)
    requires
        ordered(q),
        0 <= di < q.dests.len(),
        0 <= si < q.dests[di].sources.len(),
        q.dests[di].sources[si].infos.len() > 0,
    ensures
        ordered(queue_taken(q, di, si)),
{
    let n = queue_taken(q, di, si);
    let dd = q.dests[di];
    let last_d = q.dests.len() - 1;
    let last_s = dd.sources.len() - 1;
    let whole = dd.sources.len() == 1 && dd.sources[si].infos.len() == 1;
    assert forall|d: int, s: int, i: int, j: int|
        #![trigger n.dests[d].sources[s].infos[i], n.dests[d].sources[s].infos[j]]
        0 <= d < n.dests.len() && 0 <= s < n.dests[d].sources.len() && 0 <= i <= j
            < n.dests[d].sources[s].infos.len() implies n.dests[d].sources[s].infos[i].time
        <= n.dests[d].sources[s].infos[j].time by {
        if whole {
            let e = if d == di { last_d } else { d };
            assert(n.dests[d] == q.dests[e]);
            assert(q.dests[e].sources[s].infos[i].time <= q.dests[e].sources[s].infos[j].time);
        } else if d != di {
            assert(q.dests[d].sources[s].infos[i].time <= q.dests[d].sources[s].infos[j].time);
        } else if dd.sources[si].infos.len() == 1 {
            let e = if s == si { last_s } else { s };
            assert(n.dests[d].sources[s] == dd.sources[e]);
            assert(q.dests[di].sources[e].infos[i].time <= q.dests[di].sources[e].infos[j].time);
        } else if s == si {
            assert(q.dests[di].sources[s].infos[i + 1].time <= q.dests[di].sources[s].infos[j
                + 1].time);
        } else {
            assert(q.dests[di].sources[s].infos[i].time <= q.dests[di].sources[s].infos[j].time);
        }
    }
}

/// The packets of a flow, oldest first.
pub open spec fn flow(q: QueueView, dest: PublicKey, source: PublicKey) -> Seq<InfoView> {
    let d = find_dest(q.dests, dest);
    if d < q.dests.len() {
        let s = find_source(q.dests[d].sources, source);
        if s < q.dests[d].sources.len() {
            q.dests[d].sources[s].infos
        } else {
            Seq::empty()
        }
    } else {
        Seq::empty()
    }
}

proof fn lemma_flow_at(q: QueueView, d: int, s: int)
    requires
        queue_wf(q),
        0 <= d < q.dests.len(),
        0 <= s < q.dests[d].sources.len(),
    ensures
        flow(q, q.dests[d].key, q.dests[d].sources[s].key) == q.dests[d].sources[s].infos,
        find_dest(q.dests, q.dests[d].key) == d,
        find_source(q.dests[d].sources, q.dests[d].sources[s].key) == s,
        q.dests[d].sources[s].infos.len() > 0,
{
    let dkey = q.dests[d].key;
    let skey = q.dests[d].sources[s].key;
    assert(dest_wf(q.dests[d]));
    assert(source_wf(q.dests[d].sources[s], dkey));
    lemma_first_index_at(q.dests, |x: DestView| x.key == dkey, d);
    lemma_first_index_at(q.dests[d].sources, |x: SourceView| x.key == skey, s);
}

proof fn lemma_flow_place(q: QueueView, dest: PublicKey, source: PublicKey)
    requires
        flow(q, dest, source).len() > 0,
    ensures
        ({
            let d = find_dest(q.dests, dest);
            let s = find_source(q.dests[d].sources, source);
            &&& 0 <= d < q.dests.len()
            &&& 0 <= s < q.dests[d].sources.len()
            &&& q.dests[d].key == dest
            &&& q.dests[d].sources[s].key == source
            &&& q.dests[d].sources[s].infos == flow(q, dest, source)
        }),
{
    let d = find_dest(q.dests, dest);
    lemma_first_index(q.dests, |x: DestView| x.key == dest);
    lemma_first_index(q.dests[d].sources, |x: SourceView| x.key == source);
}

proof fn lemma_flow_pushed(q: QueueView, i: InfoView, dest: PublicKey, source: PublicKey)
    requires
        queue_wf(q),
        i.size == wire_len(i.packet),
        i.size > 0,
        q.size + i.size <= u64::MAX,
    ensures
        flow(queue_pushed(q, i), dest, source) == if dest == i.packet.dest && source
            == i.packet.source {
            flow(q, dest, source).push(i)
        } else {
            flow(q, dest, source)
        },
{
    let n = queue_pushed(q, i);
    lemma_queue_pushed_wf(q, i);
    let dkey = i.packet.dest;
    let skey = i.packet.source;
    lemma_first_index(q.dests, |x: DestView| x.key == dkey);
    let di = find_dest(q.dests, dkey);
    let old_d = if di < q.dests.len() {
        q.dests[di]
    } else {
        DestView { key: dkey, sources: Seq::empty(), size: 0 }
    };
    lemma_first_index(old_d.sources, |x: SourceView| x.key == skey);
    let si = find_source(old_d.sources, skey);
    assert(n.dests[di] == dest_pushed(old_d, i));
    lemma_flow_at(n, di, si);
    assert(flow(n, dkey, skey) =~= flow(q, dkey, skey).push(i));
    if !(dest == dkey && source == skey) {
        if flow(q, dest, source).len() > 0 {
            lemma_flow_place(q, dest, source);
            let d = find_dest(q.dests, dest);
            let s = find_source(q.dests[d].sources, source);
            if d != di {
                assert(n.dests[d] == q.dests[d]);
            }
            assert(n.dests[d].sources[s] == q.dests[d].sources[s]);
            lemma_flow_at(n, d, s);
        } else if flow(n, dest, source).len() > 0 {
            lemma_flow_place(n, dest, source);
            let d = find_dest(n.dests, dest);
            let s = find_source(n.dests[d].sources, source);
            if d != di {
                assert(n.dests[d] == q.dests[d]);
            }
            assert(q.dests[d].sources[s] == n.dests[d].sources[s]);
            lemma_flow_at(q, d, s);
        }
        assert(flow(n, dest, source) =~= flow(q, dest, source));
    }
}

proof fn lemma_flow_taken(q: QueueView, di: int, si: int, dest: PublicKey, source: PublicKey)
    requires
        queue_wf(q),
        0 <= di < q.dests.len(),
        0 <= si < q.dests[di].sources.len(),
    ensures
        flow(queue_taken(q, di, si), dest, source) == if dest == q.dests[di].key && source
            == q.dests[di].sources[si].key {
            flow(q, dest, source).remove(0)
        } else {
            flow(q, dest, source)
        },
{
    let n = queue_taken(q, di, si);
    lemma_queue_taken_wf(q, di, si);
    let dd = q.dests[di];
    lemma_flow_at(q, di, si);
    let here = dest == dd.key && source == dd.sources[si].key;
    let last_d = q.dests.len() - 1;
    let last_s = dd.sources.len() - 1;
    let single = dd.sources[si].infos.len() == 1;
    let whole = dd.sources.len() == 1 && single;
    if flow(n, dest, source).len() > 0 {
        lemma_flow_place(n, dest, source);
        let d = find_dest(n.dests, dest);
        let s = find_source(n.dests[d].sources, source);
        let e = if whole && d == di { last_d } else { d };
        let t = if !whole && d == di && single && s == si { last_s } else { s };
        if e == di && !whole {
            assert(n.dests[d] == dest_taken(dd, si));
            if single {
                assert(n.dests[d].sources[s] == dd.sources[t]);
            }
        } else {
            assert(n.dests[d] == q.dests[e]);
        }
        lemma_flow_at(q, e, t);
    }
    if flow(q, dest, source).len() > 0 {
        lemma_flow_place(q, dest, source);
        let d = find_dest(q.dests, dest);
        let s = find_source(q.dests[d].sources, source);
        if !(here && single) {
            let e = if whole && d == last_d { di } else { d };
            let t = if !whole && d == di && single && s == last_s { si } else { s };
            if d == di && !whole {
                assert(n.dests[e] == dest_taken(dd, si));
            } else {
                assert(n.dests[e] == q.dests[d]);
            }
            lemma_flow_at(n, e, t);
        }
    }
    if here {
        assert(flow(n, dest, source) =~= flow(q, dest, source).remove(0));
    } else {
        assert(flow(n, dest, source) =~= flow(q, dest, source));
    }
}

/// All packets were queued before `time`.
pub open spec fn all_before(q: QueueView, time: u64) -> bool {
    forall|dest: PublicKey, source: PublicKey, i: int|
        0 <= i < flow(q, dest, source).len() ==> (#[trigger] flow(q, dest, source)[i]).time < time
}

/// No two packets of different flows were queued at the same time.
pub open spec fn no_ties(q: QueueView) -> bool {
    forall|d1: PublicKey, s1: PublicKey, d2: PublicKey, s2: PublicKey, i: int, j: int|
        !(d1 == d2 && s1 == s2) && 0 <= i < flow(q, d1, s1).len() && 0 <= j < flow(q, d2, s2).len()
            ==> (#[trigger] flow(q, d1, s1)[i]).time != (#[trigger] flow(q, d2, s2)[j]).time
}

/// Whether `more` holds the packets of `q` and, last in its flow, the packet `i`.
spec fn holds_more(more: QueueView, q: QueueView, i: InfoView) -> bool {
    forall|dest: PublicKey, source: PublicKey| #[trigger]
        flow(more, dest, source) == if dest == i.packet.dest && source == i.packet.source {
            flow(q, dest, source).push(i)
        } else {
            flow(q, dest, source)
        }
}

/// Whether the front packet of a flow has waited longest among those before a place.
spec fn oldest_before(q: QueueView, di: int, si: int, d: int, s: int) -> bool {
    &&& 0 <= di < q.dests.len()
    &&& 0 <= si < q.dests[di].sources.len()
    &&& di < d || (di == d && si < s)
    &&& forall|a: int, b: int|
        0 <= a < q.dests.len() && 0 <= b < q.dests[a].sources.len() && (a < d || (a == d && b < s))
            ==> {
            let t = q.dests[di].sources[si].infos[0].time;
            let u = (#[trigger] q.dests[a].sources[b]).infos[0].time;
            if a < di || (a == di && b < si) {
                t < u
            } else {
                t <= u
            }
        }
}

proof fn lemma_oldest_among(q: QueueView, d: int, s: int) -> (r: (int, int))
    requires
        queue_wf(q),
        0 <= d <= q.dests.len(),
        s >= 0,
        d < q.dests.len() ==> s <= q.dests[d].sources.len(),
        d == q.dests.len() ==> s == 0,
        d > 0 || s > 0,
    ensures
        oldest_before(q, r.0, r.1, d, s),
    decreases d, s,
{
    if s > 0 {
        let here = (d, s - 1);
        if d == 0 && s == 1 {
            here
        } else {
            let r = lemma_oldest_among(q, d, s - 1);
            if q.dests[d].sources[s - 1].infos[0].time < q.dests[r.0].sources[r.1].infos[0].time {
                here
            } else {
                r
            }
        }
    } else {
        let n = q.dests[d - 1].sources.len() as int;
        assert(dest_wf(q.dests[d - 1]));
        let r = lemma_oldest_among(q, d - 1, n);
        assert forall|a: int, b: int|
            0 <= a < q.dests.len() && 0 <= b < q.dests[a].sources.len() && (a < d || (a == d && b < s))
            implies ({
            let t = q.dests[r.0].sources[r.1].infos[0].time;
            let u = (#[trigger] q.dests[a].sources[b]).infos[0].time;
            if a < r.0 || (a == r.0 && b < r.1) {
                t < u
            } else {
                t <= u
            }
        }) by {
            assert(a < d - 1 || (a == d - 1 && b < n));
        }
        r
    }
}

proof fn lemma_some_oldest(q: QueueView)
    requires
        queue_wf(q),
        q.dests.len() > 0,
    ensures
        oldest_flow(q, oldest_of(q).0, oldest_of(q).1),
{
    let r = lemma_oldest_among(q, q.dests.len() as int, 0);
    assert(oldest_flow(q, r.0, r.1));
}

/// The front packet of the flow that `pop` serves is no later than that of any other flow.
proof fn lemma_oldest_front(q: QueueView, dest: PublicKey, source: PublicKey)
    requires
        queue_wf(q),
        q.dests.len() > 0,
        flow(q, dest, source).len() > 0,
    ensures
        ({
            let (di, si) = oldest_of(q);
            let d = q.dests[di];
            &&& 0 <= di < q.dests.len()
            &&& 0 <= si < d.sources.len()
            &&& flow(q, d.key, d.sources[si].key) == d.sources[si].infos
            &&& d.sources[si].infos.len() > 0
            &&& d.sources[si].infos[0].time <= flow(q, dest, source)[0].time
        }),
{
    lemma_some_oldest(q);
    let (di, si) = oldest_of(q);
    lemma_flow_at(q, di, si);
    lemma_flow_place(q, dest, source);
    let d = find_dest(q.dests, dest);
    let s = find_source(q.dests[d].sources, source);
    assert(q.dests[d].sources[s].infos == flow(q, dest, source));
}

proof fn lemma_some_flow(q: QueueView)
    requires
        queue_wf(q),
        q.dests.len() > 0,
    ensures
        flow(q, q.dests[0].key, q.dests[0].sources[0].key).len() > 0,
{
    assert(dest_wf(q.dests[0]));
    lemma_flow_at(q, 0, 0);
}

proof fn lemma_pops_the_same(more: QueueView, q: QueueView, i: InfoView)
    requires
        queue_wf(more),
        queue_wf(q),
        q.dests.len() > 0,
        holds_more(more, q, i),
        all_before(q, i.time),
        no_ties(q),
    ensures
        ({
            let (di, si) = oldest_of(q);
            let (dm, sm) = oldest_of(more);
            let next = queue_taken(q, di, si);
            let next_more = queue_taken(more, dm, sm);
            &&& more.dests.len() > 0
            &&& more.dests[dm].sources[sm].infos[0] == q.dests[di].sources[si].infos[0]
            &&& queue_wf(next)
            &&& queue_wf(next_more)
            &&& holds_more(next_more, next, i)
            &&& all_before(next, i.time)
            &&& no_ties(next)
        }),
{
    lemma_some_flow(q);
    let dk = q.dests[0].key;
    let sk = q.dests[0].sources[0].key;
    lemma_oldest_front(q, dk, sk);
    let (di, si) = oldest_of(q);
    let qd = q.dests[di].key;
    let qs = q.dests[di].sources[si].key;
    assert(flow(more, qd, qs).len() > 0);
    lemma_flow_place(more, qd, qs);
    lemma_oldest_front(more, qd, qs);
    let (dm, sm) = oldest_of(more);
    let md = more.dests[dm].key;
    let ms = more.dests[dm].sources[sm].key;
    let front = flow(more, md, ms)[0];
    assert(flow(more, qd, qs)[0] == flow(q, qd, qs)[0]);
    assert(flow(q, qd, qs)[0].time < i.time);
    if flow(q, md, ms).len() == 0 {
        assert(front == i);
        assert(false);
    }
    assert(front == flow(q, md, ms)[0]);
    lemma_oldest_front(q, md, ms);
    if !(md == qd && ms == qs) {
        assert(flow(q, md, ms)[0].time != flow(q, qd, qs)[0].time);
        assert(false);
    }
    lemma_queue_taken_wf(q, di, si);
    lemma_queue_taken_wf(more, dm, sm);
    let next = queue_taken(q, di, si);
    let next_more = queue_taken(more, dm, sm);
    assert forall|dest: PublicKey, source: PublicKey| #[trigger]
        flow(next_more, dest, source) == (if dest == i.packet.dest && source == i.packet.source {
            flow(next, dest, source).push(i)
        } else {
            flow(next, dest, source)
        }) by {
        lemma_flow_taken(q, di, si, dest, source);
        lemma_flow_taken(more, dm, sm, dest, source);
        if dest == qd && source == qs && dest == i.packet.dest && source == i.packet.source {
            assert(flow(q, dest, source).push(i).remove(0) =~= flow(q, dest, source).remove(0).push(
                i,
            ));
        }
    }
    lemma_take_keeps_times(q, di, si, i.time);
}

proof fn lemma_take_keeps_times(q: QueueView, di: int, si: int, time: u64)
    requires
        queue_wf(q),
        0 <= di < q.dests.len(),
        0 <= si < q.dests[di].sources.len(),
        all_before(q, time),
        no_ties(q),
    ensures
        all_before(queue_taken(q, di, si), time),
        no_ties(queue_taken(q, di, si)),
{
    let next = queue_taken(q, di, si);
    let taken = |d: PublicKey, s: PublicKey|
        if d == q.dests[di].key && s == q.dests[di].sources[si].key {
            1int
        } else {
            0int
        };
    assert forall|dest: PublicKey, source: PublicKey, k: int|
        0 <= k < flow(next, dest, source).len() implies {
        &&& (#[trigger] flow(next, dest, source)[k]) == flow(q, dest, source)[k + taken(
            dest,
            source,
        )]
        &&& k + taken(dest, source) < flow(q, dest, source).len()
    } by {
        lemma_flow_taken(q, di, si, dest, source);
        lemma_flow_at(q, di, si);
    }
    assert forall|d1: PublicKey, s1: PublicKey, d2: PublicKey, s2: PublicKey, a: int, b: int|
        !(d1 == d2 && s1 == s2) && 0 <= a < flow(next, d1, s1).len() && 0 <= b < flow(
            next,
            d2,
            s2,
        ).len() implies (#[trigger] flow(next, d1, s1)[a]).time != (#[trigger] flow(
        next,
        d2,
        s2,
    )[b]).time by {
        let x = a + taken(d1, s1);
        let y = b + taken(d2, s2);
        assert(flow(next, d1, s1)[a] == flow(q, d1, s1)[x]);
        assert(flow(next, d2, s2)[b] == flow(q, d2, s2)[y]);
        assert(flow(q, d1, s1)[x].time != flow(q, d2, s2)[y].time);
    }
}

proof fn lemma_drains_the_same(more: QueueView, q: QueueView, i: InfoView, n: nat)
    requires
        queue_wf(more),
        queue_wf(q),
        holds_more(more, q, i),
        all_before(q, i.time),
        no_ties(q),
        drained(q, n).0.dests.len() == 0,
    ensures
        drained(more, n + 1).0.dests.len() == 0,
        drained(more, n + 1).1 == drained(q, n).1.push(i.packet),
    decreases n,
{
    if q.dests.len() == 0 {
        let dest = i.packet.dest;
        let source = i.packet.source;
        assert(flow(more, dest, source) =~= seq![i]);
        lemma_flow_place(more, dest, source);
        lemma_oldest_front(more, dest, source);
        let (dm, sm) = oldest_of(more);
        let next = queue_taken(more, dm, sm);
        lemma_queue_taken_wf(more, dm, sm);
        assert(more.dests[dm].key == dest && more.dests[dm].sources[sm].key == source) by {
            assert(flow(q, more.dests[dm].key, more.dests[dm].sources[sm].key).len() == 0);
        }
        if next.dests.len() > 0 {
            lemma_some_flow(next);
            let nd = next.dests[0].key;
            let ns = next.dests[0].sources[0].key;
            lemma_flow_taken(more, dm, sm, nd, ns);
            assert(flow(q, nd, ns).len() == 0);
        }
        assert(drained(more, n + 1).0 == drained(next, n).0);
        assert(drained(more, n + 1).1 =~= seq![i.packet]);
        assert(drained(q, n).1.push(i.packet) =~= seq![i.packet]);
    } else {
        lemma_pops_the_same(more, q, i);
        let (di, si) = oldest_of(q);
        let (dm, sm) = oldest_of(more);
        let m = (n - 1) as nat;
        lemma_drains_the_same(queue_taken(more, dm, sm), queue_taken(q, di, si), i, m);
        let p = q.dests[di].sources[si].infos[0].packet;
        let rest = drained(queue_taken(q, di, si), m).1;
        assert(seq![p] + rest.push(i.packet) =~= (seq![p] + rest).push(i.packet));
    }
}

/// As many calls of `pop` as a queue has bytes take every packet out of it.
pub proof fn lemma_drains_to_the_end(q: QueueView, n: nat)
    requires
        queue_wf(q),
        n >= q.size,
    ensures
        drained(q, n).0.dests.len() == 0,
    decreases n,
{
    lemma_empty_queue(q);
    if q.dests.len() > 0 {
        lemma_some_flow(q);
        lemma_oldest_front(q, q.dests[0].key, q.dests[0].sources[0].key);
        let (di, si) = oldest_of(q);
        lemma_queue_taken_wf(q, di, si);
        assert(dest_wf(q.dests[di]));
        assert(source_wf(q.dests[di].sources[si], q.dests[di].key));
        lemma_drains_to_the_end(queue_taken(q, di, si), (n - 1) as nat);
    }
}

/// First in, first out: where a packet is queued after all others, popping everything gives what it
/// gave before and that packet last. Among packets of different flows that were queued at one
/// and the same time, which comes first depends on where their flows stand, so there are none.
pub proof fn lemma_pushed_comes_last(q: QueueView, i: InfoView)
    requires
        queue_wf(q),
        i.size == wire_len(i.packet),
        q.size + i.size <= u64::MAX,
        all_before(q, i.time),
        no_ties(q),
    ensures
        queue_pushed(q, i).size == q.size + i.size,
        queue_pushed(q, i).dests.len() > 0,
        drained(queue_pushed(q, i), q.size as nat + 1).0.dests.len() == 0,
        drained(queue_pushed(q, i), q.size as nat + 1).1 == drained(q, q.size as nat).1.push(
            i.packet,
        ),
{
    let more = queue_pushed(q, i);
    lemma_queue_pushed_wf(q, i);
    assert forall|dest: PublicKey, source: PublicKey| #[trigger]
        flow(more, dest, source) == (if dest == i.packet.dest && source == i.packet.source {
            flow(q, dest, source).push(i)
        } else {
            flow(q, dest, source)
        }) by {
        lemma_flow_pushed(q, i, dest, source);
    }
    lemma_drains_to_the_end(q, q.size as nat);
    lemma_drains_the_same(more, q, i, q.size as nat);
}

/// Whether the packet `i` stands last in its flow, and all others were queued before it.
spec fn ends_with(q: QueueView, i: InfoView) -> bool {
    let own = flow(q, i.packet.dest, i.packet.source);
    &&& own.len() > 0
    &&& own.last() == i
    &&& forall|dest: PublicKey, source: PublicKey, k: int|
        0 <= k < flow(q, dest, source).len() && !(dest == i.packet.dest && source == i.packet.source
            && k == own.len() - 1) ==> (#[trigger] flow(q, dest, source)[k]).time < i.time
}

#[verifier::spinoff_prover]
proof fn lemma_drains_last(q: QueueView, i: InfoView, n: nat)
    requires
        queue_wf(q),
        ends_with(q, i),
        drained(q, n).0.dests.len() == 0,
    ensures
        drained(q, n).1.len() > 0,
        drained(q, n).1.last() == i.packet,
    decreases n,
{
    let dest = i.packet.dest;
    let source = i.packet.source;
    lemma_flow_place(q, dest, source);
    lemma_oldest_front(q, dest, source);
    let (di, si) = oldest_of(q);
    let dk = q.dests[di].key;
    let sk = q.dests[di].sources[si].key;
    let own = flow(q, dest, source);
    let next = queue_taken(q, di, si);
    let m = (n - 1) as nat;
    lemma_queue_taken_wf(q, di, si);
    lemma_flow_at(q, di, si);
    if next.dests.len() == 0 {
        lemma_flow_taken(q, di, si, dest, source);
        lemma_first_index(next.dests, |x: DestView| x.key == dest);
        assert(flow(next, dest, source).len() == 0);
        assert(flow(q, dk, sk)[0] == i);
        assert(drained(next, m).1 =~= Seq::empty());
        assert(drained(q, n).1 =~= seq![i.packet]);
    } else {
        if dk == dest && sk == source && own.len() == 1 {
            // The packet is not served while another waits.
            lemma_some_flow(next);
            let nd = next.dests[0].key;
            let ns = next.dests[0].sources[0].key;
            lemma_flow_taken(q, di, si, nd, ns);
            lemma_oldest_front(q, nd, ns);
            assert(flow(q, nd, ns)[0].time < i.time);
            assert(false);
        }
        lemma_flow_taken(q, di, si, dest, source);
        assert forall|d: PublicKey, s: PublicKey, k: int|
            0 <= k < flow(next, d, s).len() && !(d == dest && s == source && k == flow(
                next,
                dest,
                source,
            ).len() - 1) implies (#[trigger] flow(next, d, s)[k]).time < i.time by {
            lemma_flow_taken(q, di, si, d, s);
            let o = if d == dk && s == sk { k + 1 } else { k };
            assert(flow(next, d, s)[k] == flow(q, d, s)[o]);
        }
        let p = q.dests[di].sources[si].infos[0].packet;
        let rest = drained(next, m).1;
        assert(drained(q, n).0 == drained(next, m).0);
        lemma_drains_last(next, i, m);
        assert(drained(q, n).1 == seq![p] + rest);
        assert((seq![p] + rest).last() == rest.last());
    }
}

/// Whatever was queued before a packet is served before it, also where other packets were queued
/// at one and the same time: of everything that is popped, the packet comes last.
pub proof fn lemma_latest_is_served_last(q: QueueView, i: InfoView)
    requires
        queue_wf(q),
        i.size == wire_len(i.packet),
        q.size + i.size <= u64::MAX,
        all_before(q, i.time),
    ensures
        ({
            let (end, served) = drained(queue_pushed(q, i), (q.size + i.size) as nat);
            &&& end.dests.len() == 0
            &&& served.len() > 0
            &&& served.last() == i.packet
        }),
{
    let more = queue_pushed(q, i);
    lemma_queue_pushed_wf(q, i);
    lemma_flow_pushed(q, i, i.packet.dest, i.packet.source);
    assert forall|d: PublicKey, s: PublicKey, k: int|
        0 <= k < flow(more, d, s).len() && !(d == i.packet.dest && s == i.packet.source && k == flow(
            more,
            i.packet.dest,
            i.packet.source,
        ).len() - 1) implies (#[trigger] flow(more, d, s)[k]).time < i.time by {
        lemma_flow_pushed(q, i, d, s);
        assert(flow(more, d, s)[k] == flow(q, d, s)[k]);
    }
    lemma_drains_to_the_end(more, (q.size + i.size) as nat);
    lemma_drains_last(more, i, (q.size + i.size) as nat);
}

/// Whether two packets belong to one flow.
pub open spec fn same_flow(a: InfoView, b: InfoView) -> bool {
    a.packet.dest == b.packet.dest && a.packet.source == b.packet.source
}

/// Whether a packet was queued after another, or at the same time in the same flow.
pub open spec fn follows(a: InfoView, b: InfoView) -> bool {
    a.time < b.time || (same_flow(a, b) && a.time <= b.time)
}

/// Packets in the order in which they were queued.
pub open spec fn in_sequence(s: Seq<InfoView>) -> bool {
    forall|i: int, j: int| 0 <= i < j < s.len() ==> follows(#[trigger] s[i], #[trigger] s[j])
}

/// The property of belonging to a flow.
pub open spec fn of_flow(dest: PublicKey, source: PublicKey) -> spec_fn(InfoView) -> bool {
    |i: InfoView| i.packet.dest == dest && i.packet.source == source
}

/// Whether a queue holds exactly these packets, which are in the order in which they were queued.
pub open spec fn holds(q: QueueView, s: Seq<InfoView>) -> bool {
    &&& in_sequence(s)
    &&& forall|dest: PublicKey, source: PublicKey| #[trigger]
        flow(q, dest, source) == s.filter(of_flow(dest, source))
}

/// The packets of a list.
pub open spec fn packets_of(s: Seq<InfoView>) -> Seq<TrafficView> {
    s.map_values(|i: InfoView| i.packet)
}

proof fn lemma_filter_none<A>(s: Seq<A>, p: spec_fn(A) -> bool)
    requires
        forall|j: int| 0 <= j < s.len() ==> !p(#[trigger] s[j]),
    ensures
        s.filter(p).len() == 0,
    decreases s.len(),
{
    reveal(Seq::filter);
    if s.len() > 0 {
        lemma_filter_none(s.drop_last(), p);
    }
}

/// The first element with a property is the first of those that have it.
proof fn lemma_filter_first<A>(s: Seq<A>, p: spec_fn(A) -> bool)
    ensures
        (s.filter(p).len() > 0) == (first_index(s, p) < s.len()),
        s.filter(p).len() > 0 ==> s.filter(p)[0] == s[first_index(s, p)],
    decreases s.len(),
{
    reveal(Seq::filter);
    lemma_first_index(s, p);
    if s.len() > 0 {
        let d = s.drop_last();
        lemma_filter_first(d, p);
        lemma_first_index(d, p);
        let k = first_index(d, p);
        assert forall|j: int| 0 <= j < k implies !p(#[trigger] s[j]) by {
            assert(!p(d[j]));
        }
        if k < d.len() {
            lemma_first_index_at(s, p, k);
        } else if p(s.last()) {
            lemma_first_index_at(s, p, s.len() - 1);
        } else {
            lemma_first_index_at(s, p, s.len() as int);
        }
    }
}

/// Without an element, those that have a property are the same but for it.
proof fn lemma_filter_without<A>(s: Seq<A>, k: int, p: spec_fn(A) -> bool)
    requires
        0 <= k < s.len(),
        p(s[k]) ==> forall|j: int| 0 <= j < k ==> !p(#[trigger] s[j]),
    ensures
        s.remove(k).filter(p) == if p(s[k]) {
            s.filter(p).remove(0)
        } else {
            s.filter(p)
        },
    decreases s.len(),
{
    reveal(Seq::filter);
    let d = s.drop_last();
    if k == s.len() - 1 {
        assert(s.remove(k) =~= d);
        if p(s[k]) {
            lemma_filter_none(d, p);
            assert(s.filter(p).remove(0) =~= d.filter(p));
        }
    } else {
        lemma_filter_without(d, k, p);
        assert(s.remove(k).drop_last() =~= d.remove(k));
        assert(s.remove(k).last() == s.last());
        if p(s[k]) {
            lemma_filter_first(d, p);
            lemma_first_index_at(d, p, k);
            if p(s.last()) {
                assert(d.filter(p).push(s.last()).remove(0) =~= d.filter(p).remove(0).push(s.last()));
            }
        }
    }
}

proof fn lemma_holds_some(q: QueueView, s: Seq<InfoView>)
    requires
        queue_wf(q),
        holds(q, s),
    ensures
        (q.dests.len() == 0) == (s.len() == 0),
{
    if s.len() > 0 {
        let p = of_flow(s[0].packet.dest, s[0].packet.source);
        lemma_filter_first(s, p);
        lemma_first_index_at(s, p, 0);
        assert(flow(q, s[0].packet.dest, s[0].packet.source).len() > 0);
        lemma_flow_place(q, s[0].packet.dest, s[0].packet.source);
    }
    if q.dests.len() > 0 {
        lemma_some_flow(q);
        let dest = q.dests[0].key;
        let source = q.dests[0].sources[0].key;
        if s.len() == 0 {
            lemma_filter_none(s, of_flow(dest, source));
            assert(flow(q, dest, source).len() == 0);
        }
    }
}

proof fn lemma_push_holds(q: QueueView, s: Seq<InfoView>, i: InfoView)
    requires
        queue_wf(q),
        holds(q, s),
        i.size == wire_len(i.packet),
        q.size + i.size <= u64::MAX,
        forall|j: int| 0 <= j < s.len() ==> follows(#[trigger] s[j], i),
    ensures
        queue_wf(queue_pushed(q, i)),
        holds(queue_pushed(q, i), s.push(i)),
{
    lemma_queue_pushed_wf(q, i);
    let more = queue_pushed(q, i);
    assert forall|dest: PublicKey, source: PublicKey| #[trigger]
        flow(more, dest, source) == s.push(i).filter(of_flow(dest, source)) by {
        reveal(Seq::filter);
        lemma_flow_pushed(q, i, dest, source);
        assert(flow(q, dest, source) == s.filter(of_flow(dest, source)));
        assert(s.push(i).drop_last() =~= s);
    }
}

/// Taking the front packet of a flow takes its first packet out of the list.
proof fn lemma_take_holds(q: QueueView, s: Seq<InfoView>, di: int, si: int)
    requires
        queue_wf(q),
        holds(q, s),
        0 <= di < q.dests.len(),
        0 <= si < q.dests[di].sources.len(),
    ensures
        ({
            let front = q.dests[di].sources[si].infos[0];
            let k = first_index(s, of_flow(front.packet.dest, front.packet.source));
            &&& 0 <= k < s.len()
            &&& s[k] == front
            &&& queue_wf(queue_taken(q, di, si))
            &&& queue_taken(q, di, si).size == q.size - front.size
            &&& holds(queue_taken(q, di, si), s.remove(k))
        }),
{
    let d = q.dests[di];
    let f = d.sources[si];
    let front = f.infos[0];
    assert(dest_wf(d));
    assert(source_wf(f, d.key));
    let dest = d.key;
    let source = f.key;
    assert(front.packet.dest == dest && front.packet.source == source);
    let p = of_flow(dest, source);
    let k = first_index(s, p);
    lemma_flow_at(q, di, si);
    assert(flow(q, dest, source) == s.filter(p));
    lemma_filter_first(s, p);
    lemma_first_index(s, p);
    lemma_queue_taken_wf(q, di, si);
    let next = queue_taken(q, di, si);
    assert forall|d2: PublicKey, s2: PublicKey| #[trigger]
        flow(next, d2, s2) == s.remove(k).filter(of_flow(d2, s2)) by {
        lemma_flow_taken(q, di, si, d2, s2);
        assert(flow(q, d2, s2) == s.filter(of_flow(d2, s2)));
        lemma_filter_without(s, k, of_flow(d2, s2));
    }
}

/// The packet that `pop` serves is the first of the list.
proof fn lemma_pop_holds(q: QueueView, s: Seq<InfoView>)
    requires
        queue_wf(q),
        holds(q, s),
        q.dests.len() > 0,
    ensures
        ({
            let (di, si) = oldest_of(q);
            &&& s.len() > 0
            &&& oldest_flow(q, di, si)
            &&& q.dests[di].sources[si].infos[0] == s[0]
            &&& queue_wf(queue_taken(q, di, si))
            &&& holds(queue_taken(q, di, si), s.drop_first())
        }),
{
    lemma_holds_some(q, s);
    lemma_some_oldest(q);
    let (di, si) = oldest_of(q);
    lemma_take_holds(q, s, di, si);
    let front = q.dests[di].sources[si].infos[0];
    let p = of_flow(front.packet.dest, front.packet.source);
    let k = first_index(s, p);
    let d0 = s[0].packet.dest;
    let s0 = s[0].packet.source;
    lemma_filter_first(s, of_flow(d0, s0));
    lemma_first_index_at(s, of_flow(d0, s0), 0);
    assert(flow(q, d0, s0) == s.filter(of_flow(d0, s0)));
    lemma_oldest_front(q, d0, s0);
    lemma_first_index(s, p);
    if k > 0 {
        assert(follows(s[0], s[k]));
        assert(!p(s[0]));
        assert(false);
    }
    assert(s.remove(0) =~= s.drop_first());
}

proof fn lemma_drains_list(q: QueueView, s: Seq<InfoView>)
    requires
        queue_wf(q),
        holds(q, s),
    ensures
        drained(q, s.len()).0.dests.len() == 0,
        drained(q, s.len()).1 == packets_of(s),
    decreases s.len(),
{
    lemma_holds_some(q, s);
    if s.len() == 0 {
        assert(packets_of(s) =~= Seq::empty());
    } else {
        lemma_pop_holds(q, s);
        let (di, si) = oldest_of(q);
        let next = queue_taken(q, di, si);
        lemma_drains_list(next, s.drop_first());
        assert(drained(q, s.len()).0 == drained(next, (s.len() - 1) as nat).0);
        assert(packets_of(s) =~= seq![s[0].packet] + packets_of(s.drop_first()));
    }
}

/// A call of a packet queue.
pub enum QueueCall {
    Push(InfoView),
    Pop,
    DropLargest,
}

/// A queue after a call.
pub open spec fn queue_after(q: QueueView, call: QueueCall) -> QueueView {
    match call {
        QueueCall::Push(i) => queue_pushed(q, i),
        QueueCall::Pop => if q.dests.len() == 0 {
            q
        } else {
            queue_taken(q, oldest_of(q).0, oldest_of(q).1)
        },
        QueueCall::DropLargest => if q.dests.len() == 0 {
            q
        } else {
            queue_taken(q, largest_of(q).0, largest_of(q).1)
        },
    }
}

/// A queue after calls, from the start.
pub open spec fn queue_run(calls: Seq<QueueCall>) -> QueueView
    decreases calls.len(),
{
    if calls.len() == 0 {
        QueueView { dests: Seq::empty(), size: 0 }
    } else {
        queue_after(queue_run(calls.drop_last()), calls.last())
    }
}

/// The packet that `pop` takes.
pub open spec fn next_popped(q: QueueView) -> InfoView {
    q.dests[oldest_of(q).0].sources[oldest_of(q).1].infos[0]
}

/// The packet that `drop_largest` takes.
pub open spec fn next_dropped(q: QueueView) -> InfoView {
    q.dests[largest_of(q).0].sources[largest_of(q).1].infos[0]
}

/// The first of the packets that belong to the flow of one.
pub open spec fn oldest_like(s: Seq<InfoView>, i: InfoView) -> int {
    first_index(s, of_flow(i.packet.dest, i.packet.source))
}

/// The packets that were queued and neither popped nor dropped, in the order in which they were
/// queued. The first is popped; of the largest flow the first is dropped.
pub open spec fn left_over(calls: Seq<QueueCall>) -> Seq<InfoView>
    decreases calls.len(),
{
    if calls.len() == 0 {
        Seq::empty()
    } else {
        let before = left_over(calls.drop_last());
        match calls.last() {
            QueueCall::Push(i) => before.push(i),
            QueueCall::Pop => if before.len() == 0 {
                before
            } else {
                before.drop_first()
            },
            QueueCall::DropLargest => if before.len() == 0 {
                before
            } else {
                before.remove(oldest_like(before, next_dropped(queue_run(calls.drop_last()))))
            },
        }
    }
}

/// Every packet is queued after those before it, or at the time of the last one in the same flow;
/// its size is that on the wire, and the sizes add up.
pub open spec fn in_step(calls: Seq<QueueCall>) -> bool
    decreases calls.len(),
{
    calls.len() == 0 || {
        let before = calls.drop_last();
        &&& in_step(before)
        &&& calls.last() matches QueueCall::Push(i) ==> {
            &&& i.size == wire_len(i.packet)
            &&& queue_run(before).size + i.size <= u64::MAX
            &&& forall|k: int|
                0 <= k < before.len() ==> ((#[trigger] before[k]) matches QueueCall::Push(e) ==> follows(
                    e,
                    i,
                ))
        }
    }
}

proof fn lemma_largest_dest(q: QueueView, n: int) -> (d: int)
    requires
        0 < n <= q.dests.len(),
    ensures
        0 <= d < n,
        forall|e: int|
            0 <= e < n ==> if e > d {
                (#[trigger] q.dests[e]).size < q.dests[d].size
            } else {
                q.dests[e].size <= q.dests[d].size
            },
    decreases n,
{
    if n == 1 {
        0
    } else {
        let d = lemma_largest_dest(q, n - 1);
        if q.dests[n - 1].size >= q.dests[d].size {
            n - 1
        } else {
            d
        }
    }
}

proof fn lemma_largest_source(sources: Seq<SourceView>, n: int) -> (s: int)
    requires
        0 < n <= sources.len(),
    ensures
        0 <= s < n,
        forall|e: int|
            0 <= e < n ==> if e > s {
                (#[trigger] sources[e]).size < sources[s].size
            } else {
                sources[e].size <= sources[s].size
            },
    decreases n,
{
    if n == 1 {
        0
    } else {
        let s = lemma_largest_source(sources, n - 1);
        if sources[n - 1].size >= sources[s].size {
            n - 1
        } else {
            s
        }
    }
}

proof fn lemma_some_largest(q: QueueView)
    requires
        queue_wf(q),
        q.dests.len() > 0,
    ensures
        largest_flow(q, largest_of(q).0, largest_of(q).1),
{
    let d = lemma_largest_dest(q, q.dests.len() as int);
    assert(dest_wf(q.dests[d]));
    let s = lemma_largest_source(q.dests[d].sources, q.dests[d].sources.len() as int);
    let p = (d, s);
    assert(largest_flow(q, p.0, p.1));
}

proof fn lemma_run_holds(calls: Seq<QueueCall>)
    requires
        in_step(calls),
    ensures
        queue_wf(queue_run(calls)),
        holds(queue_run(calls), left_over(calls)),
        forall|j: int|
            0 <= j < left_over(calls).len() ==> calls.contains(
                QueueCall::Push(#[trigger] left_over(calls)[j]),
            ),
    decreases calls.len(),
{
    let q = queue_run(calls);
    let s = left_over(calls);
    if calls.len() == 0 {
        let e: Seq<InfoView> = Seq::empty();
        assert forall|dest: PublicKey, source: PublicKey| #[trigger]
            flow(q, dest, source) == e.filter(of_flow(dest, source)) by {
            lemma_filter_none(e, of_flow(dest, source));
            lemma_first_index(q.dests, |x: DestView| x.key == dest);
            assert(flow(q, dest, source) =~= e.filter(of_flow(dest, source)));
        }
    } else {
        let before = calls.drop_last();
        let qb = queue_run(before);
        let sb = left_over(before);
        lemma_run_holds(before);
        lemma_holds_some(qb, sb);
        assert forall|x: QueueCall| before.contains(x) implies #[trigger] calls.contains(x) by {
            let k = choose|k: int| 0 <= k < before.len() && before[k] == x;
            assert(calls[k] == x);
        }
        assert(calls.contains(calls.last()));
        match calls.last() {
            QueueCall::Push(i) => {
                assert forall|j: int| 0 <= j < sb.len() implies follows(#[trigger] sb[j], i) by {
                    let x = QueueCall::Push(sb[j]);
                    assert(before.contains(x));
                    let k = choose|k: int| 0 <= k < before.len() && before[k] == x;
                    assert(before[k] == x);
                }
                lemma_push_holds(qb, sb, i);
                assert forall|j: int| 0 <= j < s.len() implies calls.contains(
                    QueueCall::Push(#[trigger] s[j]),
                ) by {
                    if j < sb.len() {
                        assert(before.contains(QueueCall::Push(sb[j])));
                    }
                }
            },
            QueueCall::Pop => {
                if qb.dests.len() > 0 {
                    lemma_pop_holds(qb, sb);
                    assert forall|j: int| 0 <= j < s.len() implies calls.contains(
                        QueueCall::Push(#[trigger] s[j]),
                    ) by {
                        assert(s[j] == sb[j + 1]);
                    }
                } else {
                    assert forall|j: int| 0 <= j < s.len() implies calls.contains(
                        QueueCall::Push(#[trigger] s[j]),
                    ) by {
                        assert(s[j] == sb[j]);
                    }
                }
            },
            QueueCall::DropLargest => {
                if qb.dests.len() > 0 {
                    lemma_some_largest(qb);
                    let (di, si) = largest_of(qb);
                    lemma_take_holds(qb, sb, di, si);
                    let k = oldest_like(sb, next_dropped(qb));
                    assert forall|j: int| 0 <= j < s.len() implies calls.contains(
                        QueueCall::Push(#[trigger] s[j]),
                    ) by {
                        assert(s[j] == sb[if j < k { j } else { j + 1 }]);
                    }
                } else {
                    assert forall|j: int| 0 <= j < s.len() implies calls.contains(
                        QueueCall::Push(#[trigger] s[j]),
                    ) by {
                        assert(s[j] == sb[j]);
                    }
                }
            },
        }
    }
}

/// The time at which packets are queued never goes back; their sizes are those on the wire, and add
/// up. Packets may be queued at one and the same time.
pub open spec fn in_time(calls: Seq<QueueCall>) -> bool
    decreases calls.len(),
{
    calls.len() == 0 || {
        let before = calls.drop_last();
        &&& in_time(before)
        &&& calls.last() matches QueueCall::Push(i) ==> {
            &&& i.size == wire_len(i.packet)
            &&& queue_run(before).size + i.size <= u64::MAX
            &&& forall|k: int|
                0 <= k < before.len() ==> ((#[trigger] before[k]) matches QueueCall::Push(e)
                    ==> e.time <= i.time)
        }
    }
}

/// The packets of a flow without the first, where that is the packet taken.
pub open spec fn without_front(
    s: Seq<InfoView>,
    taken: InfoView,
    dest: PublicKey,
    source: PublicKey,
) -> Seq<InfoView> {
    if of_flow(dest, source)(taken) {
        s.drop_first()
    } else {
        s
    }
}

/// The packets of a flow that were queued and neither popped nor dropped, in the order in which
/// they were queued: where one of the flow is taken, it is the first.
pub open spec fn flow_left(calls: Seq<QueueCall>, dest: PublicKey, source: PublicKey) -> Seq<InfoView>
    decreases calls.len(),
{
    if calls.len() == 0 {
        Seq::empty()
    } else {
        let q = queue_run(calls.drop_last());
        let before = flow_left(calls.drop_last(), dest, source);
        match calls.last() {
            QueueCall::Push(i) => if of_flow(dest, source)(i) {
                before.push(i)
            } else {
                before
            },
            QueueCall::Pop => if q.dests.len() == 0 {
                before
            } else {
                without_front(before, next_popped(q), dest, source)
            },
            QueueCall::DropLargest => if q.dests.len() == 0 {
                before
            } else {
                without_front(before, next_dropped(q), dest, source)
            },
        }
    }
}

proof fn lemma_take_flow(q: QueueView, di: int, si: int, dest: PublicKey, source: PublicKey)
    requires
        queue_wf(q),
        0 <= di < q.dests.len(),
        0 <= si < q.dests[di].sources.len(),
    ensures
        flow(queue_taken(q, di, si), dest, source) == without_front(
            flow(q, dest, source),
            q.dests[di].sources[si].infos[0],
            dest,
            source,
        ),
        of_flow(dest, source)(q.dests[di].sources[si].infos[0]) ==> flow(q, dest, source).len() > 0,
{
    let d = q.dests[di];
    let f = d.sources[si];
    assert(dest_wf(d));
    assert(source_wf(f, d.key));
    lemma_flow_at(q, di, si);
    lemma_flow_taken(q, di, si, dest, source);
    if of_flow(dest, source)(f.infos[0]) {
        assert(f.infos.remove(0) =~= f.infos.drop_first());
    }
}

/// Whether a flow before and after a call differ by no more than the last or the first packet.
spec fn one_call(b: Seq<InfoView>, s: Seq<InfoView>, call: QueueCall) -> bool {
    ||| s == b
    ||| call matches QueueCall::Push(i) && s == b.push(i)
    ||| b.len() > 0 && s == b.drop_first()
}

proof fn lemma_run_flows(calls: Seq<QueueCall>)
    requires
        in_time(calls),
    ensures
        queue_wf(queue_run(calls)),
        forall|dest: PublicKey, source: PublicKey| #[trigger]
            flow(queue_run(calls), dest, source) == flow_left(calls, dest, source),
        forall|dest: PublicKey, source: PublicKey, k: int|
            0 <= k < flow_left(calls, dest, source).len() ==> calls.contains(
                QueueCall::Push(#[trigger] flow_left(calls, dest, source)[k]),
            ),
        forall|dest: PublicKey, source: PublicKey, j: int, k: int|
            0 <= j <= k < flow_left(calls, dest, source).len() ==> (#[trigger] flow_left(
                calls,
                dest,
                source,
            )[j]).time <= (#[trigger] flow_left(calls, dest, source)[k]).time,
    decreases calls.len(),
{
    let q = queue_run(calls);
    if calls.len() == 0 {
        assert forall|dest: PublicKey, source: PublicKey| #[trigger]
            flow(q, dest, source) == flow_left(calls, dest, source) by {
            lemma_first_index(q.dests, |x: DestView| x.key == dest);
        }
    } else {
        let before = calls.drop_last();
        let qb = queue_run(before);
        lemma_run_flows(before);
        assert forall|x: QueueCall| before.contains(x) implies #[trigger] calls.contains(x) by {
            let k = choose|k: int| 0 <= k < before.len() && before[k] == x;
            assert(calls[k] == x);
        }
        assert(calls[calls.len() - 1] == calls.last());
        if qb.dests.len() > 0 {
            lemma_some_oldest(qb);
            lemma_some_largest(qb);
        }
        match calls.last() {
            QueueCall::Push(i) => {
                lemma_queue_pushed_wf(qb, i);
                assert forall|dest: PublicKey, source: PublicKey| #[trigger]
                    flow(q, dest, source) == flow_left(calls, dest, source) && one_call(
                    flow_left(before, dest, source),
                    flow_left(calls, dest, source),
                    calls.last(),
                ) by {
                    lemma_flow_pushed(qb, i, dest, source);
                    assert(flow(qb, dest, source) == flow_left(before, dest, source));
                }
            },
            QueueCall::Pop => if qb.dests.len() > 0 {
                let (di, si) = oldest_of(qb);
                lemma_queue_taken_wf(qb, di, si);
                assert forall|dest: PublicKey, source: PublicKey| #[trigger]
                    flow(q, dest, source) == flow_left(calls, dest, source) && one_call(
                    flow_left(before, dest, source),
                    flow_left(calls, dest, source),
                    calls.last(),
                ) by {
                    lemma_take_flow(qb, di, si, dest, source);
                    assert(flow(qb, dest, source) == flow_left(before, dest, source));
                }
            },
            QueueCall::DropLargest => if qb.dests.len() > 0 {
                let (di, si) = largest_of(qb);
                lemma_queue_taken_wf(qb, di, si);
                assert forall|dest: PublicKey, source: PublicKey| #[trigger]
                    flow(q, dest, source) == flow_left(calls, dest, source) && one_call(
                    flow_left(before, dest, source),
                    flow_left(calls, dest, source),
                    calls.last(),
                ) by {
                    lemma_take_flow(qb, di, si, dest, source);
                    assert(flow(qb, dest, source) == flow_left(before, dest, source));
                }
            },
        }
        assert forall|dest: PublicKey, source: PublicKey, k: int|
            0 <= k < flow_left(calls, dest, source).len() implies calls.contains(
            QueueCall::Push(#[trigger] flow_left(calls, dest, source)[k]),
        ) by {
            let b = flow_left(before, dest, source);
            let s = flow_left(calls, dest, source);
            assert(flow(q, dest, source) == s);
            assert(one_call(b, s, calls.last()));
            if s == b {
                assert(before.contains(QueueCall::Push(b[k])));
            } else if s.len() > b.len() {
                if k < b.len() {
                    assert(s[k] == b[k]);
                    assert(before.contains(QueueCall::Push(b[k])));
                }
            } else {
                assert(s[k] == b[k + 1]);
                assert(before.contains(QueueCall::Push(b[k + 1])));
            }
        }
        assert forall|dest: PublicKey, source: PublicKey, j: int, k: int|
            0 <= j <= k < flow_left(calls, dest, source).len() implies (#[trigger] flow_left(
            calls,
            dest,
            source,
        )[j]).time <= (#[trigger] flow_left(calls, dest, source)[k]).time by {
            let b = flow_left(before, dest, source);
            let s = flow_left(calls, dest, source);
            assert(flow(q, dest, source) == s);
            assert(one_call(b, s, calls.last()));
            if s.len() > b.len() {
                if j < b.len() && k == b.len() {
                    assert(before.contains(QueueCall::Push(b[j])));
                } else if k < b.len() {
                    assert(b[j].time <= b[k].time);
                }
            } else if s.len() == b.len() {
                assert(s == b);
                assert(b[j].time <= b[k].time);
            } else {
                assert(b[j + 1].time <= b[k + 1].time);
            }
        }
    }
}

/// First in, first out, also where packets of different flows were queued at one and the same
/// time: after any calls a flow holds, in the order in which they were queued, the packets that
/// were neither popped nor dropped. `pop` gives the first of a flow, which was queued no later
/// than any other packet.
pub proof fn lemma_flows_are_first_in_first_out(calls: Seq<QueueCall>)
    requires
        in_time(calls),
    ensures
        queue_wf(queue_run(calls)),
        forall|dest: PublicKey, source: PublicKey| #[trigger]
            flow(queue_run(calls), dest, source) == flow_left(calls, dest, source),
        queue_run(calls).dests.len() > 0 ==> {
            let next = next_popped(queue_run(calls));
            let own = flow_left(calls, next.packet.dest, next.packet.source);
            &&& own.len() > 0
            &&& own[0] == next
            &&& forall|dest: PublicKey, source: PublicKey, k: int|
                0 <= k < flow_left(calls, dest, source).len() ==> next.time <= (
                #[trigger] flow_left(calls, dest, source)[k]).time
        },
{
    let q = queue_run(calls);
    lemma_run_flows(calls);
    if q.dests.len() > 0 {
        let next = next_popped(q);
        lemma_some_oldest(q);
        let (di, si) = oldest_of(q);
        assert(dest_wf(q.dests[di]));
        assert(source_wf(q.dests[di].sources[si], q.dests[di].key));
        lemma_flow_at(q, di, si);
        assert(flow(q, next.packet.dest, next.packet.source) == q.dests[di].sources[si].infos);
        assert forall|dest: PublicKey, source: PublicKey, k: int|
            0 <= k < flow_left(calls, dest, source).len() implies next.time <= (#[trigger] flow_left(
            calls,
            dest,
            source,
        )[k]).time by {
            assert(flow(q, dest, source) == flow_left(calls, dest, source));
            lemma_oldest_front(q, dest, source);
            assert(flow_left(calls, dest, source)[0].time <= flow_left(calls, dest, source)[k].time);
        }
    }
}

/// First in, first out across all flows, whatever was called: `pop` gives the packet that was queued
/// first of those that are left, and nothing exactly where none is left. Popping to the end gives
/// each packet that was queued and not dropped, once and in the order in which they were queued.
/// No two packets of different flows were queued at one and the same time: of those, which comes
/// first depends on where their flows stand.
pub proof fn lemma_first_in_first_out(calls: Seq<QueueCall>)
    requires
        in_step(calls),
    ensures
        ({
            let q = queue_run(calls);
            let left = left_over(calls);
            let (di, si) = oldest_of(q);
            &&& queue_wf(q)
            &&& q.dests.len() == 0 <==> left.len() == 0
            &&& left.len() > 0 ==> oldest_flow(q, di, si) && q.dests[di].sources[si].infos[0] == left[0]
            &&& left.len() > 0 ==> holds(queue_taken(q, di, si), left.drop_first())
            &&& drained(q, left.len()).0.dests.len() == 0
            &&& drained(q, left.len()).1 == packets_of(left)
        }),
{
    let q = queue_run(calls);
    let left = left_over(calls);
    lemma_run_holds(calls);
    lemma_holds_some(q, left);
    if q.dests.len() > 0 {
        lemma_pop_holds(q, left);
    }
    lemma_drains_list(q, left);
}

/// `drop_largest` takes exactly one packet, the oldest of the largest flow, and nothing exactly
/// where none is left. The others keep the order in which they are popped, where no two packets of
/// different flows were queued at one and the same time.
pub proof fn lemma_dropping_keeps_order(calls: Seq<QueueCall>)
    requires
        in_step(calls),
    ensures
        ({
            let q = queue_run(calls);
            let left = left_over(calls);
            let after = queue_after(q, QueueCall::DropLargest);
            let k = oldest_like(left, next_dropped(q));
            if left.len() == 0 {
                q.dests.len() == 0 && after == q
            } else {
                &&& largest_flow(q, largest_of(q).0, largest_of(q).1)
                &&& 0 <= k < left.len()
                &&& left[k] == next_dropped(q)
                &&& forall|j: int| 0 <= j < k ==> !same_flow(#[trigger] left[j], left[k])
                &&& after.size == q.size - left[k].size
                &&& drained(after, (left.len() - 1) as nat).0.dests.len() == 0
                &&& drained(after, (left.len() - 1) as nat).1 == drained(q, left.len()).1.remove(k)
            }
        }),
{
    let q = queue_run(calls);
    let left = left_over(calls);
    lemma_run_holds(calls);
    lemma_holds_some(q, left);
    if q.dests.len() > 0 {
        lemma_some_largest(q);
        let (di, si) = largest_of(q);
        lemma_take_holds(q, left, di, si);
        let k = oldest_like(left, next_dropped(q));
        lemma_first_index(left, of_flow(next_dropped(q).packet.dest, next_dropped(q).packet.source));
        lemma_drains_list(q, left);
        lemma_drains_list(queue_taken(q, di, si), left.remove(k));
        assert(packets_of(left.remove(k)) =~= packets_of(left).remove(k));
    }
}

// ---------------------------------------------------------------------------
// Delivery queue
// ---------------------------------------------------------------------------

/// Maximum age of the oldest queued packet before one is dropped (25 milliseconds).
pub const MAX_PACKET_AGE: u64 = 25_000_000;

/// A queue that makes room: it drops from the largest flow if its oldest packet is older
/// than allowed.
pub open spec fn relieved(q: QueueView, now: u64) -> QueueView {
    if q.dests.len() > 0 && elapsed(oldest_time(q), now) > MAX_PACKET_AGE {
        let (di, si) = largest_of(q);
        queue_taken(q, di, si)
    } else {
        q
    }
}

impl PacketQueue {
    /// Drops from the largest flow if the oldest packet is older than allowed. Returns
    /// whether a packet was dropped.
    pub fn relieve(&mut self, now: u64) -> (r: bool)
        requires
            old(self).wf(),
        ensures
            final(self).wf(),
            final(self)@ == relieved(old(self)@, now),
            final(self)@.size <= old(self)@.size,
            r == (old(self)@.dests.len() > 0 && elapsed(oldest_time(old(self)@), now)
                > MAX_PACKET_AGE),
    {
        match self.oldest_age(now) {
            Some(age) => {
                if age > MAX_PACKET_AGE {
                    let ghost q = self@;
                    let r = self.drop_largest();
                    proof {
                        let (di, si) = largest_of(q);
                        lemma_queue_taken_wf(q, di, si);
                    }
                    r
                } else {
                    false
                }
            },
            None => false,
        }
    }

    /// Adds a packet, after making room for it.
    pub fn push_relieved(&mut self, packet: TrafficPacket, now: u64)
        requires
            old(self).wf(),
            wire_len(packet@) <= usize::MAX,
            old(self)@.size + wire_len(packet@) <= u64::MAX,
        ensures
            final(self).wf(),
            final(self)@ == queue_pushed(
                relieved(old(self)@, now),
                InfoView { packet: packet@, size: wire_len(packet@) as u64, time: now },
            ),
    {
        let _ = self.relieve(now);
        self.push(packet, now);
    }

    /// Takes up to `max` packets, oldest first.
    pub fn pop_batch(&mut self, max: usize) -> (r: Vec<TrafficPacket>)
        requires
            old(self).wf(),
        ensures
            final(self).wf(),
            (final(self)@, packets_view(r@)) == drained(old(self)@, max as nat),
    {
        let mut batch: Vec<TrafficPacket> = Vec::new();
        let ghost start = self@;
        let mut n: usize = 0;
        assert(packets_view(batch@) =~= Seq::empty());
        while n < max
            invariant
                self.wf(),
                n <= max,
                start == old(self)@,
                drained(start, max as nat) == ({
                    let (q, ps) = drained(self@, (max - n) as nat);
                    (q, packets_view(batch@) + ps)
                }),
            decreases max - n,
        {
            let ghost before = self@;
            let ghost so_far = packets_view(batch@);
            match self.pop() {
                Some(p) => {
                    let ghost pv = p@;
                    batch.push(p);
                    proof {
                        let (q, ps) = drained(self@, (max - n - 1) as nat);
                        assert(packets_view(batch@) =~= so_far.push(pv));
                        assert(packets_view(batch@) + ps =~= so_far + (seq![pv] + ps));
                    }
                },
                None => {
                    assert(so_far + Seq::<TrafficView>::empty() =~= so_far);
                    return batch;
                },
            }
            n += 1;
        }
        assert(packets_view(batch@) + Seq::<TrafficView>::empty() =~= packets_view(batch@));
        batch
    }
}

/// What a list of packets holds.
pub open spec fn packets_view(v: Seq<TrafficPacket>) -> Seq<TrafficView> {
    Seq::new(v.len(), |i: int| v[i]@)
}

/// A queue after up to `n` calls of `pop`, and the packets that they gave.
pub open spec fn drained(q: QueueView, n: nat) -> (QueueView, Seq<TrafficView>)
    decreases n,
{
    if n == 0 || q.dests.len() == 0 {
        (q, Seq::empty())
    } else {
        let (di, si) = oldest_of(q);
        let (end, rest) = drained(queue_taken(q, di, si), (n - 1) as nat);
        (end, seq![q.dests[di].sources[si].infos[0].packet] + rest)
    }
}

/// Packets for the local application: handed to a waiting reader, or queued when there is none.
pub struct DeliveryQueue {
    queue: PacketQueue,
    recv_ready: usize,
}

/// A call of a delivery queue.
pub enum DeliveryCall {
    /// A packet is delivered.
    Deliver(InfoView),
    /// A reader asks for a packet.
    Ask,
}

/// The packets of a delivery queue and the number of its readers after a call, and the packet that
/// the call gave. A packet goes to a reader that waits, or is queued; a reader gets the oldest
/// packet, or waits.
pub open spec fn delivery_after(q: QueueView, readers: int, call: DeliveryCall) -> (
    QueueView,
    int,
    Option<TrafficView>,
) {
    match call {
        DeliveryCall::Deliver(i) => if readers > 0 {
            (q, readers - 1, Some(i.packet))
        } else {
            (queue_pushed(relieved(q, i.time), i), readers, None)
        },
        DeliveryCall::Ask => if q.dests.len() > 0 {
            let (di, si) = oldest_of(q);
            (queue_taken(q, di, si), readers, Some(q.dests[di].sources[si].infos[0].packet))
        } else {
            (q, readers + 1, None)
        },
    }
}

/// A delivery queue after calls, from the start.
pub open spec fn delivery_run(calls: Seq<DeliveryCall>) -> (QueueView, int)
    decreases calls.len(),
{
    if calls.len() == 0 {
        (QueueView { dests: Seq::empty(), size: 0 }, 0)
    } else {
        let (q, readers) = delivery_run(calls.drop_last());
        let (after, left, _) = delivery_after(q, readers, calls.last());
        (after, left)
    }
}

/// How many readers got nothing, less how many packets were handed out as they were delivered.
pub open spec fn unserved(calls: Seq<DeliveryCall>) -> int
    decreases calls.len(),
{
    if calls.len() == 0 {
        0
    } else {
        let before = calls.drop_last();
        let (q, readers) = delivery_run(before);
        unserved(before) + match (calls.last(), delivery_after(q, readers, calls.last()).2) {
            (DeliveryCall::Ask, None) => 1,
            (DeliveryCall::Deliver(_), Some(_)) => -1,
            _ => 0int,
        }
    }
}

/// After any calls, the readers that wait are those that got nothing and were handed nothing since,
/// and while one waits nothing is queued.
pub proof fn lemma_readers_are_counted(calls: Seq<DeliveryCall>)
    ensures
        delivery_run(calls).1 == unserved(calls),
        unserved(calls) >= 0,
        unserved(calls) > 0 ==> delivery_run(calls).0.dests.len() == 0,
    decreases calls.len(),
{
    if calls.len() > 0 {
        lemma_readers_are_counted(calls.drop_last());
    }
}

/// A packet that is delivered is handed out if and only if a reader waits, and the queue is then
/// left as it is; else it is queued. It is never both, and never neither.
pub proof fn lemma_handed_out_or_queued(calls: Seq<DeliveryCall>, i: InfoView)
    ensures
        ({
            let (q, readers) = delivery_run(calls);
            let (after, left, given) = delivery_after(q, readers, DeliveryCall::Deliver(i));
            &&& given is Some <==> unserved(calls) > 0
            &&& given is Some ==> given == Some(i.packet) && after == q && left == readers - 1
            &&& given is None ==> after == queue_pushed(relieved(q, i.time), i) && left == readers
            &&& given is None ==> queue_count(after, i) == queue_count(relieved(q, i.time), i) + 1
        }),
{
    lemma_readers_are_counted(calls);
    let (q, readers) = delivery_run(calls);
    lemma_push_conserves(relieved(q, i.time), i, i);
}

impl DeliveryQueue {
    /// The queued packets.
    pub closed spec fn queued(&self) -> QueueView {
        self.queue@
    }

    /// Number of readers that wait.
    pub closed spec fn waiting(&self) -> usize {
        self.recv_ready
    }

    /// The queue invariant.
    pub open spec fn wf(&self) -> bool {
        queue_wf(self.queued())
    }

    /// An empty queue with no reader.
    pub fn new() -> (r: Self)
        ensures
            r.wf(),
            r.queued() == (QueueView { dests: Seq::empty(), size: 0 }),
            r.waiting() == 0,
    {
        DeliveryQueue { queue: PacketQueue::new(), recv_ready: 0 }
    }

    /// Delivers a packet: returns it if a reader waits (who is to be sent it), or queues it,
    /// after dropping from the largest flow if the oldest packet is too old.
    pub fn deliver(&mut self, packet: TrafficPacket, now: u64) -> (r: Option<TrafficPacket>)
        requires
            old(self).wf(),
            wire_len(packet@) <= usize::MAX,
            old(self).queued().size + wire_len(packet@) <= u64::MAX,
        ensures
            final(self).wf(),
            if old(self).waiting() > 0 {
                &&& r matches Some(p) && p@ == packet@
                &&& final(self).waiting() == old(self).waiting() - 1
                &&& final(self).queued() == old(self).queued()
            } else {
                &&& r is None
                &&& final(self).waiting() == 0
                &&& final(self).queued() == queue_pushed(
                    relieved(old(self).queued(), now),
                    InfoView { packet: packet@, size: wire_len(packet@) as u64, time: now },
                )
            },
            (final(self).queued(), final(self).waiting() as int, opt_view(r)) == delivery_after(
                old(self).queued(),
                old(self).waiting() as int,
                DeliveryCall::Deliver(
                    InfoView { packet: packet@, size: wire_len(packet@) as u64, time: now },
                ),
            ),
    {
        if self.recv_ready > 0 {
            self.recv_ready = self.recv_ready - 1;
            return Some(packet);
        }
        self.queue.push_relieved(packet, now);
        None
    }

    /// Number of bytes queued.
    pub fn queue_size(&self) -> (r: u64)
        ensures
            r == self.queued().size,
    {
        self.queue.size()
    }

    /// Called before a reader waits: returns the oldest packet if one is queued; if not, one
    /// more reader waits.
    pub fn try_pop_or_wait(&mut self) -> (r: Option<TrafficPacket>)
        requires
            old(self).wf(),
            old(self).waiting() < usize::MAX,
        ensures
            final(self).wf(),
            match r {
                Some(p) => {
                    let (di, si) = oldest_of(old(self).queued());
                    &&& oldest_flow(old(self).queued(), di, si)
                    &&& p@ == old(self).queued().dests[di].sources[si].infos[0].packet
                    &&& final(self).queued() == queue_taken(old(self).queued(), di, si)
                    &&& final(self).waiting() == old(self).waiting()
                },
                None => {
                    &&& old(self).queued().dests.len() == 0
                    &&& final(self).queued() == old(self).queued()
                    &&& final(self).waiting() == old(self).waiting() + 1
                },
            },
            (final(self).queued(), final(self).waiting() as int, opt_view(r)) == delivery_after(
                old(self).queued(),
                old(self).waiting() as int,
                DeliveryCall::Ask,
            ),
    {
        match self.queue.pop() {
            Some(packet) => Some(packet),
            None => {
                self.recv_ready = self.recv_ready + 1;
                None
            },
        }
    }
}

// ---------------------------------------------------------------------------
// Laws of making room and of serving many
// ---------------------------------------------------------------------------

/// While no flow has waited more than twenty-five milliseconds at its front, nothing is dropped.
/// Once one has, a single packet goes: the front one of a flow that no other flow to its
/// destination exceeds in bytes, to a destination that no other exceeds. Every other packet stays
/// as often as it was there.
pub proof fn lemma_when_a_queue_is_relieved(q: QueueView, now: u64)
    requires
        queue_wf(q),
    ensures
        (forall|d: int, s: int|
            0 <= d < q.dests.len() && 0 <= s < q.dests[d].sources.len() ==> now <= (
            #[trigger] q.dests[d].sources[s]).infos[0].time + 25_000_000) ==> relieved(q, now) == q,
        (exists|d: int, s: int|
            0 <= d < q.dests.len() && 0 <= s < q.dests[d].sources.len() && (
            #[trigger] q.dests[d].sources[s]).infos[0].time + 25_000_000 < now) ==> exists|
            di: int,
            si: int,
        |
            {
                &&& 0 <= di < q.dests.len()
                &&& 0 <= si < q.dests[di].sources.len()
                &&& forall|d: int|
                    0 <= d < q.dests.len() ==> (#[trigger] q.dests[d]).size <= q.dests[di].size
                &&& forall|s: int|
                    0 <= s < q.dests[di].sources.len() ==> (
                    #[trigger] q.dests[di].sources[s]).size <= q.dests[di].sources[si].size
                &&& forall|x: InfoView| #[trigger]
                    queue_count(relieved(q, now), x) == queue_count(q, x) - same_as(
                        (#[trigger] q.dests[di].sources[si]).infos[0],
                        x,
                    )
            },
{
    if q.dests.len() > 0 {
        lemma_some_oldest(q);
        lemma_some_largest(q);
        let (oi, oj) = oldest_of(q);
        let oldest = q.dests[oi].sources[oj];
        if elapsed(oldest_time(q), now) > MAX_PACKET_AGE {
            assert(oldest.infos[0].time + 25_000_000 < now);
            let (di, si) = largest_of(q);
            assert(relieved(q, now) == queue_taken(q, di, si));
            let cut = q.dests[di].sources[si];
            assert forall|x: InfoView| #[trigger]
                queue_count(relieved(q, now), x) == queue_count(q, x) - same_as(
                    cut.infos[0],
                    x,
                ) by {
                lemma_take_conserves(q, di, si, x);
            }
        } else {
            assert forall|d: int, s: int|
                0 <= d < q.dests.len() && 0 <= s < q.dests[d].sources.len() implies now <= (
            #[trigger] q.dests[d].sources[s]).infos[0].time + 25_000_000 by {}
        }
    }
}

/// A batch holds as many packets as were asked for, or all that there were: the queue and the
/// batch together hold every packet as often as the queue did, and only an empty queue gives
/// fewer.
pub proof fn lemma_a_batch_is_what_leaves(q: QueueView, n: nat)
    requires
        queue_wf(q),
    ensures
        ({
            let (left, batch) = drained(q, n);
            &&& queue_wf(left)
            &&& batch.len() <= n
            &&& batch.len() < n ==> left.dests.len() == 0
            &&& exists|given: Seq<InfoView>|
                packets_of(given) == batch && forall|x: InfoView|
                    queue_count(q, x) == #[trigger] queue_count(left, x) + sum(
                        given,
                        |i: InfoView| same_as(i, x),
                    )
        }),
    decreases n,
{
    let (left, batch) = drained(q, n);
    if n == 0 || q.dests.len() == 0 {
        let given: Seq<InfoView> = Seq::empty();
        assert(packets_of(given) =~= batch);
        assert forall|x: InfoView|
            queue_count(q, x) == #[trigger] queue_count(left, x) + sum(
                given,
                |i: InfoView| same_as(i, x),
            ) by {}
    } else {
        lemma_some_oldest(q);
        let (di, si) = oldest_of(q);
        let next = queue_taken(q, di, si);
        lemma_queue_taken_wf(q, di, si);
        lemma_a_batch_is_what_leaves(next, (n - 1) as nat);
        let (end, rest) = drained(next, (n - 1) as nat);
        let later = choose|given: Seq<InfoView>|
            packets_of(given) == rest && forall|x: InfoView|
                queue_count(next, x) == #[trigger] queue_count(end, x) + sum(
                    given,
                    |i: InfoView| same_as(i, x),
                );
        let front = q.dests[di].sources[si].infos[0];
        let given = seq![front] + later;
        assert(packets_of(given) =~= seq![front.packet] + packets_of(later));
        assert forall|x: InfoView|
            queue_count(q, x) == #[trigger] queue_count(left, x) + sum(
                given,
                |i: InfoView| same_as(i, x),
            ) by {
            let f = |i: InfoView| same_as(i, x);
            lemma_take_conserves(q, di, si, x);
            crate::seqs::lemma_sum_concat(seq![front], later, f);
            assert(seq![front] =~= Seq::<InfoView>::empty().push(front));
            crate::seqs::lemma_sum_push(Seq::<InfoView>::empty(), front, f);
        }
    }
}

} // verus!
