//! Path discovery state machine.
//!
//! Handles path lookups, notifications and breakage. Keeps a cache of known paths to
//! destinations with timeouts, and throttles lookups to prevent flooding. Times are
//! nanoseconds on a clock that never goes back; the caller reads the clock.
use vstd::prelude::*;
use crate::bytes::{copy_u64s, key_eq, u64s_eq, PublicKey, Sig};
use crate::crypto::{ed25519_accepts, ed25519_signature, Crypto};
use crate::table::{
    distinct, get, has_key, kept, lemma_mapped_find, lemma_mapped_put, lemma_put, mapped, put,
    KeyTable,
};
use crate::traffic::{elapsed, opt_view, TrafficPacket};
use crate::wire::{
    encode_path, encode_uvarint, path_bytes, uvarint, PathNotifyInfoView, PeerPort, TrafficView,
};

verus! {

/// Cached path information for a known destination.
pub struct PathInfo {
    /// Tree coordinates to destination (not zero-terminated).
    pub path: Vec<PeerPort>,
    /// Sequence number from the destination.
    pub seq: u64,
    /// When we last sent a lookup request.
    pub req_time: u64,
    /// When this path entry was last refreshed.
    pub last_refresh: u64,
    /// Cached traffic packet waiting for path.
    pub cached_traffic: Option<TrafficPacket>,
    /// Path broken flag (must get new notify to clear).
    pub broken: bool,
}

/// What a [`PathInfo`] holds.
pub struct PathInfoView {
    pub path: Seq<PeerPort>,
    pub seq: u64,
    pub req_time: u64,
    pub last_refresh: u64,
    pub cached_traffic: Option<TrafficView>,
    pub broken: bool,
}

impl View for PathInfo {
    type V = PathInfoView;

    open spec fn view(&self) -> PathInfoView {
        PathInfoView {
            path: self.path@,
            seq: self.seq,
            req_time: self.req_time,
            last_refresh: self.last_refresh,
            cached_traffic: opt_view(self.cached_traffic),
            broken: self.broken,
        }
    }
}

/// A pending lookup for a destination we don't have a path to yet.
pub struct PathRumor {
    /// Cached traffic packet.
    pub traffic: Option<TrafficPacket>,
    /// When we last sent a lookup (None = never sent).
    pub send_time: Option<u64>,
    /// When this rumor was created (used as expiry fallback if never sent).
    pub created: u64,
}

/// What a [`PathRumor`] holds.
pub struct PathRumorView {
    pub traffic: Option<TrafficView>,
    pub send_time: Option<u64>,
    pub created: u64,
}

impl View for PathRumor {
    type V = PathRumorView;

    open spec fn view(&self) -> PathRumorView {
        PathRumorView {
            traffic: opt_view(self.traffic),
            send_time: self.send_time,
            created: self.created,
        }
    }
}

/// Our own signed path info (advertised to lookup requesters).
pub struct OwnPathInfo {
    pub seq: u64,
    pub path: Vec<PeerPort>,
    pub sig: Sig,
}

impl View for OwnPathInfo {
    type V = PathNotifyInfoView;

    open spec fn view(&self) -> PathNotifyInfoView {
        PathNotifyInfoView { seq: self.seq, path: self.path@, sig: self.sig }
    }
}

/// The bytes that are signed of a path: sequence number and coordinates.
pub open spec fn signed_path(seq: u64, path: Seq<PeerPort>) -> Seq<u8> {
    uvarint(seq) + path_bytes(path)
}

impl Clone for OwnPathInfo {
    fn clone(&self) -> (r: Self)
        ensures
            r@ == self@,
    {
        OwnPathInfo { seq: self.seq, path: copy_u64s(&self.path), sig: self.sig }
    }
}

impl OwnPathInfo {
    /// The path of a node that has not found its place yet.
    pub fn new() -> (r: Self)
        ensures
            r.seq == 0,
            r.path@ == Seq::<PeerPort>::empty(),
            r.sig@ == Seq::new(64, |i: int| 0u8),
    {
        let r = OwnPathInfo { seq: 0, path: Vec::new(), sig: [0u8;64] };
        assert(r.sig@ =~= Seq::new(64, |i: int| 0u8));
        r
    }

    /// Computes the bytes that are signed.
    pub fn bytes_for_sig(&self) -> (out: Vec<u8>)
        ensures
            out@ == signed_path(self.seq, self.path@),
    {
        let mut out: Vec<u8> = Vec::new();
        encode_uvarint(&mut out, self.seq);
        encode_path(&mut out, &self.path);
        assert(out@ =~= signed_path(self.seq, self.path@));
        out
    }

    /// Signs with our private key.
    pub fn sign(&mut self, crypto: &Crypto)
        ensures
            final(self).seq == old(self).seq,
            final(self).path == old(self).path,
            final(self).sig@ == ed25519_signature(
                crypto.secret@,
                signed_path(old(self).seq, old(self).path@),
            ),
            crypto.wf() ==> ed25519_accepts(
                crypto.public_key@,
                signed_path(old(self).seq, old(self).path@),
                final(self).sig@,
            ),
    {
        let bytes = self.bytes_for_sig();
        self.sig = crypto.sign(&bytes);
    }

    /// Checks equality ignoring the signature.
    pub fn content_equal(&self, other: &OwnPathInfo) -> (r: bool)
        ensures
            r == (self.seq == other.seq && self.path@ == other.path@),
    {
        self.seq == other.seq && u64s_eq(&self.path, &other.path)
    }
}

// ---------------------------------------------------------------------------
// Pathfinder
// ---------------------------------------------------------------------------

/// Path discovery and caching state machine.
pub struct Pathfinder {
    /// Our own signed path info.
    pub info: OwnPathInfo,
    /// Known paths to destinations.
    pub paths: KeyTable<PublicKey, PathInfo>,
    /// Pending lookups (indexed by transformed key).
    pub rumors: KeyTable<PublicKey, PathRumor>,
}

/// What a [`Pathfinder`] holds.
pub struct PathfinderView {
    pub info: PathNotifyInfoView,
    pub paths: Seq<(PublicKey, PathInfoView)>,
    pub rumors: Seq<(PublicKey, PathRumorView)>,
}

/// The view of one path.
pub open spec fn path_info_view() -> spec_fn(PathInfo) -> PathInfoView {
    |i: PathInfo| i@
}

/// The view of one rumor.
pub open spec fn rumor_view() -> spec_fn(PathRumor) -> PathRumorView {
    |r: PathRumor| r@
}

impl View for Pathfinder {
    type V = PathfinderView;

    open spec fn view(&self) -> PathfinderView {
        PathfinderView {
            info: self.info@,
            paths: mapped(self.paths@, path_info_view()),
            rumors: mapped(self.rumors@, rumor_view()),
        }
    }
}

/// One path per destination, one rumor per transformed key.
pub open spec fn pathfinder_wf(p: PathfinderView) -> bool {
    distinct(p.paths) && distinct(p.rumors)
}

/// A path after it was put under `dest`, if there was one.
pub open spec fn with_path(p: PathfinderView, dest: PublicKey, i: PathInfoView) -> PathfinderView {
    PathfinderView { paths: put(p.paths, dest, i), ..p }
}

/// A rumor after it was put under `dest`.
pub open spec fn with_rumor(p: PathfinderView, dest: PublicKey, r: PathRumorView) -> PathfinderView {
    PathfinderView { rumors: put(p.rumors, dest, r), ..p }
}

/// The packet that a notification from `source` sets free from the rumor of its transformed
/// key: the one cached there, if it is for `source`.
pub open spec fn freed_traffic(r: PathRumorView, source: PublicKey) -> Option<TrafficView> {
    match r.traffic {
        Some(t) => if t.dest == source {
            Some(t)
        } else {
            None
        },
        None => None,
    }
}

/// Whether a notification with `seq` and `path` replaces a known path: it must be newer, and
/// it must say something new unless the path is broken.
pub open spec fn replaces(i: PathInfoView, seq: u64, path: Seq<PeerPort>) -> bool {
    seq > i.seq && (i.broken || i.path != path)
}

/// The pathfinder after a notification, whether it was accepted, and the packet it set free.
pub open spec fn notified(
    p: PathfinderView,
    source: PublicKey,
    xformed: PublicKey,
    seq: u64,
    path: Seq<PeerPort>,
    now: u64,
) -> (PathfinderView, bool, Option<TrafficView>) {
    match get(p.paths, source) {
        Some(i) => if replaces(i, seq, path) {
            (
                with_path(
                    p,
                    source,
                    PathInfoView {
                        path,
                        seq,
                        broken: false,
                        last_refresh: now,
                        cached_traffic: None,
                        ..i
                    },
                ),
                true,
                i.cached_traffic,
            )
        } else {
            (p, false, None)
        },
        None => match get(p.rumors, xformed) {
            Some(r) => {
                let freed = freed_traffic(r, source);
                let fresh = PathInfoView {
                    path,
                    seq,
                    req_time: now,
                    last_refresh: now,
                    cached_traffic: None,
                    broken: false,
                };
                let left = if freed is Some {
                    PathRumorView { traffic: None, ..r }
                } else {
                    r
                };
                (with_path(with_rumor(p, xformed, left), source, fresh), true, freed)
            },
            None => (p, false, None),
        },
    }
}

/// Whether a path is still fresh at time `now`.
pub open spec fn path_fresh(now: u64, timeout: u64) -> spec_fn(PathInfoView) -> bool {
    |i: PathInfoView| elapsed(i.last_refresh, now) < timeout
}

/// Whether a rumor is still fresh at time `now`: it counts from when it was last sent, or from
/// its creation if it never was.
pub open spec fn rumor_fresh(now: u64, timeout: u64) -> spec_fn(PathRumorView) -> bool {
    |r: PathRumorView|
        elapsed(
            match r.send_time {
                Some(t) => t,
                None => r.created,
            },
            now,
        ) < timeout
}

/// The pathfinder after a lookup for `dest` was sent.
pub open spec fn lookup_marked(p: PathfinderView, dest: PublicKey, now: u64) -> PathfinderView {
    match get(p.paths, dest) {
        Some(i) => with_path(p, dest, PathInfoView { req_time: now, ..i }),
        None => p,
    }
}

/// Whether a lookup for `dest` is throttled.
pub open spec fn lookup_throttled(
    p: PathfinderView,
    dest: PublicKey,
    throttle: u64,
    now: u64,
) -> bool {
    get(p.paths, dest) matches Some(i) && elapsed(i.req_time, now) < throttle
}

/// Whether a rumor lookup for `dest` is throttled.
pub open spec fn rumor_throttled(
    p: PathfinderView,
    dest: PublicKey,
    throttle: u64,
    now: u64,
) -> bool {
    get(p.rumors, dest) matches Some(i) && (i.send_time matches Some(t) && elapsed(t, now)
        < throttle)
}

/// The pathfinder with a rumor for `dest`.
pub open spec fn rumor_ensured(p: PathfinderView, dest: PublicKey, now: u64) -> PathfinderView {
    if has_key(p.rumors, dest) {
        p
    } else {
        with_rumor(p, dest, PathRumorView { traffic: None, send_time: None, created: now })
    }
}

/// The pathfinder after a rumor lookup for `dest` was sent at time `t`, or is to count as
/// never sent.
pub open spec fn rumor_marked(p: PathfinderView, dest: PublicKey, t: Option<u64>) -> PathfinderView {
    match get(p.rumors, dest) {
        Some(i) => with_rumor(p, dest, PathRumorView { send_time: t, ..i }),
        None => p,
    }
}

/// The pathfinder after a packet was cached in the rumor for `dest`.
pub open spec fn rumor_cached(p: PathfinderView, dest: PublicKey, t: TrafficView) -> PathfinderView {
    match get(p.rumors, dest) {
        Some(i) => with_rumor(p, dest, PathRumorView { traffic: Some(t), ..i }),
        None => p,
    }
}

/// The pathfinder after the path to `dest` broke.
pub open spec fn path_broken(p: PathfinderView, dest: PublicKey) -> PathfinderView {
    match get(p.paths, dest) {
        Some(i) => with_path(p, dest, PathInfoView { broken: true, ..i }),
        None => p,
    }
}

/// The pathfinder after traffic from `key` arrived: a working path counts as refreshed.
pub open spec fn path_refreshed(p: PathfinderView, key: PublicKey, now: u64) -> PathfinderView {
    match get(p.paths, key) {
        Some(i) => if i.broken {
            p
        } else {
            with_path(p, key, PathInfoView { last_refresh: now, ..i })
        },
        None => p,
    }
}

/// The pathfinder after a packet was cached with the path to `dest`.
pub open spec fn path_cached(p: PathfinderView, dest: PublicKey, t: TrafficView) -> PathfinderView {
    match get(p.paths, dest) {
        Some(i) => with_path(p, dest, PathInfoView { cached_traffic: Some(t), ..i }),
        None => p,
    }
}

/// The pathfinder without what has expired.
pub open spec fn cleaned(p: PathfinderView, timeout: u64, now: u64) -> PathfinderView {
    PathfinderView {
        paths: kept(p.paths, path_fresh(now, timeout)),
        rumors: kept(p.rumors, rumor_fresh(now, timeout)),
        ..p
    }
}

impl Pathfinder {
    /// The pathfinder invariant.
    pub open spec fn wf(&self) -> bool {
        pathfinder_wf(self@)
    }

    /// A pathfinder that knows no paths.
    pub fn new(crypto: &Crypto) -> (r: Self)
        ensures
            r.wf(),
            r@.paths.len() == 0,
            r@.rumors.len() == 0,
            r@.info.seq == 0,
            r@.info.path == Seq::<PeerPort>::empty(),
            r@.info.sig@ == ed25519_signature(crypto.secret@, signed_path(0, Seq::empty())),
    {
        let mut info = OwnPathInfo::new();
        info.sign(crypto);
        Pathfinder { info, paths: KeyTable::new(), rumors: KeyTable::new() }
    }

    /// Whether a lookup to this destination should be throttled.
    pub fn should_throttle_lookup(&self, dest: &PublicKey, throttle: u64, now: u64) -> (r: bool)
        ensures
            r == lookup_throttled(self@, *dest, throttle, now),
    {
        proof {
            lemma_mapped_find(self.paths@, path_info_view(), *dest);
        }
        match self.paths.get(dest) {
            Some(info) => now.saturating_sub(info.req_time) < throttle,
            None => false,
        }
    }

    /// Records that we sent a lookup at this time.
    pub fn mark_lookup_sent(&mut self, dest: &PublicKey, now: u64)
        ensures
            final(self)@ == lookup_marked(old(self)@, *dest, now),
            old(self).wf() ==> final(self).wf(),
    {
        proof {
            lemma_mapped_find(self.paths@, path_info_view(), *dest);
        }
        match self.paths.position(dest) {
            Some(at) => {
                let ghost i = self.paths@[at as int].1@;
                let ghost n = PathInfoView { req_time: now, ..i };
                self.paths.value_at_mut(at).req_time = now;
                proof {
                    lemma_put(old(self)@.paths, *dest, n);
                    assert(self@.paths =~= old(self)@.paths.update(at as int, (*dest, n)));
                }
            },
            None => {},
        }
    }

    /// Whether a rumor lookup should be throttled. A rumor that was never sent is not.
    pub fn should_throttle_rumor(&self, xformed_dest: &PublicKey, throttle: u64, now: u64) -> (r:
        bool)
        ensures
            r == rumor_throttled(self@, *xformed_dest, throttle, now),
    {
        proof {
            lemma_mapped_find(self.rumors@, rumor_view(), *xformed_dest);
        }
        match self.rumors.get(xformed_dest) {
            Some(rumor) => match rumor.send_time {
                Some(t) => now.saturating_sub(t) < throttle,
                None => false,
            },
            None => false,
        }
    }

    /// Creates a rumor for a destination unless there is one.
    /// Returns true if the rumor was just created.
    pub fn ensure_rumor(&mut self, xformed_dest: PublicKey, now: u64) -> (r: bool)
        ensures
            r == !has_key(old(self)@.rumors, xformed_dest),
            final(self)@ == rumor_ensured(old(self)@, xformed_dest, now),
            old(self).wf() ==> final(self).wf(),
    {
        proof {
            lemma_mapped_find(self.rumors@, rumor_view(), xformed_dest);
        }
        if self.rumors.contains_key(&xformed_dest) {
            false
        } else {
            let rumor = PathRumor { traffic: None, send_time: None, created: now };
            proof {
                lemma_mapped_put(self.rumors@, rumor_view(), xformed_dest, rumor);
                lemma_put(self@.rumors, xformed_dest, rumor@);
            }
            self.rumors.insert(xformed_dest, rumor);
            true
        }
    }

    /// Records that a rumor lookup was sent now (resets the expiry timer).
    pub fn mark_rumor_sent(&mut self, xformed_dest: &PublicKey, now: u64)
        ensures
            final(self)@ == rumor_marked(old(self)@, *xformed_dest, Some(now)),
            old(self).wf() ==> final(self).wf(),
    {
        proof {
            lemma_mapped_find(self.rumors@, rumor_view(), *xformed_dest);
        }
        match self.rumors.position(xformed_dest) {
            Some(at) => {
                let ghost i = self.rumors@[at as int].1@;
                let ghost n = PathRumorView { send_time: Some(now), ..i };
                self.rumors.value_at_mut(at).send_time = Some(now);
                proof {
                    lemma_put(old(self)@.rumors, *xformed_dest, n);
                    assert(self@.rumors =~= old(self)@.rumors.update(
                        at as int,
                        (*xformed_dest, n),
                    ));
                }
            },
            None => {},
        }
    }

    /// Lets a rumor lookup count as never sent, so that the next one is not throttled.
    pub fn reset_rumor(&mut self, xformed_dest: &PublicKey)
        ensures
            final(self)@ == rumor_marked(old(self)@, *xformed_dest, None),
            old(self).wf() ==> final(self).wf(),
    {
        proof {
            lemma_mapped_find(self.rumors@, rumor_view(), *xformed_dest);
        }
        match self.rumors.position(xformed_dest) {
            Some(at) => {
                let ghost i = self.rumors@[at as int].1@;
                let ghost n = PathRumorView { send_time: None, ..i };
                self.rumors.value_at_mut(at).send_time = None;
                proof {
                    lemma_put(old(self)@.rumors, *xformed_dest, n);
                    assert(self@.rumors =~= old(self)@.rumors.update(
                        at as int,
                        (*xformed_dest, n),
                    ));
                }
            },
            None => {},
        }
    }

    /// Caches a traffic packet in a rumor (for sending when the path is found).
    pub fn cache_rumor_traffic(&mut self, xformed_dest: &PublicKey, traffic: TrafficPacket)
        ensures
            final(self)@ == rumor_cached(old(self)@, *xformed_dest, traffic@),
            old(self).wf() ==> final(self).wf(),
    {
        proof {
            lemma_mapped_find(self.rumors@, rumor_view(), *xformed_dest);
        }
        match self.rumors.position(xformed_dest) {
            Some(at) => {
                let ghost i = self.rumors@[at as int].1@;
                let ghost n = PathRumorView { traffic: Some(traffic@), ..i };
                self.rumors.value_at_mut(at).traffic = Some(traffic);
                proof {
                    lemma_put(old(self)@.rumors, *xformed_dest, n);
                    assert(self@.rumors =~= old(self)@.rumors.update(
                        at as int,
                        (*xformed_dest, n),
                    ));
                }
            },
            None => {},
        }
    }

    /// Processes a path notification.
    ///
    /// Returns `(accepted, traffic)` where `accepted` is true if the path was updated and
    /// `traffic` is a cached packet to re-send, if any. A known path is replaced by a newer
    /// one, but a working path is not reset when its coordinates are unchanged. A new path
    /// needs a rumor for the transformed key of its source.
    pub fn accept_notify(
        &mut self,
        source: PublicKey,
        xformed_source: PublicKey,
        notify_seq: u64,
        notify_path: Vec<PeerPort>,
        now: u64,
    ) -> (r: (bool, Option<TrafficPacket>))
        ensures
            (final(self)@, r.0, opt_view(r.1)) == notified(
                old(self)@,
                source,
                xformed_source,
                notify_seq,
                notify_path@,
                now,
            ),
            old(self).wf() ==> final(self).wf(),
    {
        proof {
            lemma_mapped_find(self.paths@, path_info_view(), source);
            lemma_mapped_find(self.rumors@, rumor_view(), xformed_source);
        }
        match self.paths.position(&source) {
            Some(at) => {
                let ghost i = self.paths@[at as int].1@;
                assert(get(self@.paths, source) == Some(i));
                let info = self.paths.value_at_mut(at);
                if notify_seq <= info.seq {
                    assert(self@.paths =~= old(self)@.paths);
                    return (false, None);
                }
                if !info.broken && u64s_eq(&info.path, &notify_path) {
                    assert(self@.paths =~= old(self)@.paths);
                    return (false, None);
                }
                info.path = notify_path;
                info.seq = notify_seq;
                info.broken = false;
                info.last_refresh = now;
                let traffic = info.cached_traffic.take();
                proof {
                    let n = PathInfoView {
                        path: notify_path@,
                        seq: notify_seq,
                        broken: false,
                        last_refresh: now,
                        cached_traffic: None,
                        ..i
                    };
                    lemma_put(old(self)@.paths, source, n);
                    assert(self@.paths =~= old(self)@.paths.update(at as int, (source, n)));
                }
                (true, traffic)
            },
            None => {
                let at: usize = match self.rumors.position(&xformed_source) {
                    Some(at) => at,
                    None => {
                        return (false, None);
                    },
                };
                let ghost rv = self.rumors@[at as int].1@;
                assert(get(self@.rumors, xformed_source) == Some(rv));
                let rumor = self.rumors.value_at_mut(at);
                let fits: bool = match &rumor.traffic {
                    Some(t) => key_eq(&t.dest, &source),
                    None => false,
                };
                let traffic: Option<TrafficPacket> = if fits {
                    rumor.traffic.take()
                } else {
                    None
                };
                let fresh = PathInfo {
                    path: notify_path,
                    seq: notify_seq,
                    req_time: now,
                    last_refresh: now,
                    cached_traffic: None,
                    broken: false,
                };
                proof {
                    let left = if fits {
                        PathRumorView { traffic: None, ..rv }
                    } else {
                        rv
                    };
                    lemma_put(old(self)@.rumors, xformed_source, left);
                    assert(self@.rumors =~= old(self)@.rumors.update(
                        at as int,
                        (xformed_source, left),
                    ));
                    lemma_mapped_put(self.paths@, path_info_view(), source, fresh);
                    lemma_put(self@.paths, source, fresh@);
                }
                self.paths.insert(source, fresh);
                (true, traffic)
            },
        }
    }

    /// Handles a path broken notification for a destination.
    pub fn handle_broken(&mut self, dest: &PublicKey)
        ensures
            final(self)@ == path_broken(old(self)@, *dest),
            old(self).wf() ==> final(self).wf(),
    {
        proof {
            lemma_mapped_find(self.paths@, path_info_view(), *dest);
        }
        match self.paths.position(dest) {
            Some(at) => {
                let ghost i = self.paths@[at as int].1@;
                let ghost n = PathInfoView { broken: true, ..i };
                self.paths.value_at_mut(at).broken = true;
                proof {
                    lemma_put(old(self)@.paths, *dest, n);
                    assert(self@.paths =~= old(self)@.paths.update(at as int, (*dest, n)));
                }
            },
            None => {},
        }
    }

    /// Resets the timeout for a destination (called when we receive traffic from it).
    pub fn reset_timeout(&mut self, key: &PublicKey, now: u64)
        ensures
            final(self)@ == path_refreshed(old(self)@, *key, now),
            old(self).wf() ==> final(self).wf(),
    {
        proof {
            lemma_mapped_find(self.paths@, path_info_view(), *key);
        }
        match self.paths.position(key) {
            Some(at) => {
                if !self.paths.value_at(at).broken {
                    let ghost i = self.paths@[at as int].1@;
                    let ghost n = PathInfoView { last_refresh: now, ..i };
                    self.paths.value_at_mut(at).last_refresh = now;
                    proof {
                        lemma_put(old(self)@.paths, *key, n);
                        assert(self@.paths =~= old(self)@.paths.update(at as int, (*key, n)));
                    }
                }
            },
            None => {},
        }
    }

    /// The cached path for a destination. A broken path is not given.
    pub fn get_path(&self, dest: &PublicKey) -> (r: Option<&[PeerPort]>)
        ensures
            match r {
                Some(path) => get(self@.paths, *dest) matches Some(i) && !i.broken && path@
                    == i.path,
                None => !(get(self@.paths, *dest) matches Some(i) && !i.broken),
            },
    {
        proof {
            lemma_mapped_find(self.paths@, path_info_view(), *dest);
        }
        match self.paths.get(dest) {
            Some(info) => if info.broken {
                None
            } else {
                Some(info.path.as_slice())
            },
            None => None,
        }
    }

    /// Whether the slot for a packet to `dest` is empty.
    pub fn needs_traffic_cache(&self, dest: &PublicKey) -> (r: bool)
        ensures
            r == (get(self@.paths, *dest) matches Some(i) && i.cached_traffic is None),
    {
        proof {
            lemma_mapped_find(self.paths@, path_info_view(), *dest);
        }
        match self.paths.get(dest) {
            Some(info) => info.cached_traffic.is_none(),
            None => false,
        }
    }

    /// Caches a traffic packet for a destination (sent when the path is found or refreshed).
    pub fn cache_traffic(&mut self, dest: &PublicKey, traffic: TrafficPacket)
        ensures
            final(self)@ == path_cached(old(self)@, *dest, traffic@),
            old(self).wf() ==> final(self).wf(),
    {
        proof {
            lemma_mapped_find(self.paths@, path_info_view(), *dest);
        }
        match self.paths.position(dest) {
            Some(at) => {
                let ghost i = self.paths@[at as int].1@;
                let ghost n = PathInfoView { cached_traffic: Some(traffic@), ..i };
                self.paths.value_at_mut(at).cached_traffic = Some(traffic);
                proof {
                    lemma_put(old(self)@.paths, *dest, n);
                    assert(self@.paths =~= old(self)@.paths.update(at as int, (*dest, n)));
                }
            },
            None => {},
        }
    }

    /// Removes expired paths and rumors.
    pub fn cleanup_expired(&mut self, path_timeout: u64, now: u64)
        ensures
            final(self)@ == cleaned(old(self)@, path_timeout, now),
            old(self).wf() ==> final(self).wf(),
    {
        let ghost fp = path_fresh(now, path_timeout);
        let ghost fr = rumor_fresh(now, path_timeout);
        let ghost p0 = self@.paths;
        let ghost r0 = self@.rumors;
        proof {
            if self.wf() {
                crate::table::lemma_kept(p0, fp);
                crate::table::lemma_kept(r0, fr);
            }
            assert(p0.take(0) =~= Seq::empty());
            assert(p0.skip(0) =~= p0);
            assert(r0.take(0) =~= Seq::empty());
            assert(r0.skip(0) =~= r0);
        }
        let mut i: usize = 0;
        let ghost mut done: int = 0;
        assert(self@.paths =~= kept(p0.take(0), fp) + p0.skip(0));
        while i < self.paths.len()
            invariant
                0 <= done <= p0.len(),
                i == kept(p0.take(done), fp).len(),
                self@.paths == kept(p0.take(done), fp) + p0.skip(done),
                self@.info == old(self)@.info,
                self@.rumors == r0,
                p0 == old(self)@.paths,
                fp == path_fresh(now, path_timeout),
            decreases p0.len() - done,
        {
            let ghost before = self@.paths;
            proof {
                assert(self@.paths.len() == self.paths@.len());
                assert(before[i as int] == p0.skip(done)[0]);
                assert(p0.take(done + 1).drop_last() =~= p0.take(done));
                assert(p0.take(done + 1).last() == p0[done]);
            }
            let stale: bool = now.saturating_sub(self.paths.value_at(i).last_refresh)
                >= path_timeout;
            assert(before[i as int].1 == self.paths@[i as int].1@);
            if stale {
                let _ = self.paths.remove_at(i);
                assert(self@.paths =~= before.remove(i as int));
                assert(self@.paths =~= kept(p0.take(done + 1), fp) + p0.skip(done + 1));
            } else {
                i += 1;
                assert(self@.paths =~= kept(p0.take(done + 1), fp) + p0.skip(done + 1));
            }
            proof {
                done = done + 1;
            }
        }
        proof {
            assert(done == p0.len());
            assert(p0.take(done) =~= p0);
            assert(p0.skip(done) =~= Seq::empty());
            assert(self@.paths =~= kept(p0, fp));
            done = 0;
        }
        i = 0;
        assert(self@.rumors =~= kept(r0.take(0), fr) + r0.skip(0));
        while i < self.rumors.len()
            invariant
                0 <= done <= r0.len(),
                i == kept(r0.take(done), fr).len(),
                self@.rumors == kept(r0.take(done), fr) + r0.skip(done),
                self@.info == old(self)@.info,
                self@.paths == kept(p0, fp),
                r0 == old(self)@.rumors,
                fr == rumor_fresh(now, path_timeout),
            decreases r0.len() - done,
        {
            let ghost before = self@.rumors;
            proof {
                assert(self@.rumors.len() == self.rumors@.len());
                assert(before[i as int] == r0.skip(done)[0]);
                assert(r0.take(done + 1).drop_last() =~= r0.take(done));
                assert(r0.take(done + 1).last() == r0[done]);
            }
            let rumor = self.rumors.value_at(i);
            let base: u64 = match rumor.send_time {
                Some(t) => t,
                None => rumor.created,
            };
            let stale: bool = now.saturating_sub(base) >= path_timeout;
            assert(before[i as int].1 == rumor@);
            if stale {
                let _ = self.rumors.remove_at(i);
                assert(self@.rumors =~= before.remove(i as int));
                assert(self@.rumors =~= kept(r0.take(done + 1), fr) + r0.skip(done + 1));
            } else {
                i += 1;
                assert(self@.rumors =~= kept(r0.take(done + 1), fr) + r0.skip(done + 1));
            }
            proof {
                done = done + 1;
            }
        }
        proof {
            assert(done == r0.len());
            assert(r0.take(done) =~= r0);
            assert(r0.skip(done) =~= Seq::empty());
            assert(self@.rumors =~= kept(r0, fr));
        }
    }
}

// ---------------------------------------------------------------------------
// Laws of path discovery
// ---------------------------------------------------------------------------

/// A path that broke is not given any more, whatever else is known.
pub proof fn lemma_broken_is_not_given(p: PathfinderView, dest: PublicKey)
    ensures
        get(path_broken(p, dest).paths, dest) matches Some(i) ==> i.broken,
{
    match get(p.paths, dest) {
        Some(i) => {
            lemma_put(p.paths, dest, PathInfoView { broken: true, ..i });
        },
        None => {},
    }
}

/// An accepted notification makes its path the one that is given, also if the path was broken.
pub proof fn lemma_accepted_is_given(
    p: PathfinderView,
    source: PublicKey,
    xformed: PublicKey,
    seq: u64,
    path: Seq<PeerPort>,
    now: u64,
)
    requires
        notified(p, source, xformed, seq, path, now).1,
    ensures
        get(notified(p, source, xformed, seq, path, now).0.paths, source) matches Some(i)
            && !i.broken && i.path == path && i.seq == seq,
{
    let q = notified(p, source, xformed, seq, path, now).0;
    match get(p.paths, source) {
        Some(i) => {
            lemma_put(
                p.paths,
                source,
                PathInfoView {
                    path,
                    seq,
                    broken: false,
                    last_refresh: now,
                    cached_traffic: None,
                    ..i
                },
            );
        },
        None => {
            lemma_put(
                p.paths,
                source,
                PathInfoView {
                    path,
                    seq,
                    req_time: now,
                    last_refresh: now,
                    cached_traffic: None,
                    broken: false,
                },
            );
        },
    }
}

/// A notification that was accepted is not accepted a second time, not even after the path
/// broke: whoever holds an old one cannot bring it back.
pub proof fn lemma_no_replay(
    p: PathfinderView,
    source: PublicKey,
    xformed: PublicKey,
    seq: u64,
    path: Seq<PeerPort>,
    now: u64,
    later: u64,
)
    requires
        notified(p, source, xformed, seq, path, now).1,
    ensures
        ({
            let q = notified(p, source, xformed, seq, path, now).0;
            &&& notified(q, source, xformed, seq, path, later) == (
                q,
                false,
                None::<TrafficView>,
            )
            &&& !notified(path_broken(q, source), source, xformed, seq, path, later).1
        }),
{
    lemma_accepted_is_given(p, source, xformed, seq, path, now);
    let q = notified(p, source, xformed, seq, path, now).0;
    let i = get(q.paths, source)->0;
    lemma_put(q.paths, source, PathInfoView { broken: true, ..i });
}

/// A notification that nobody asked for is dropped: without a known path and without a rumor
/// nothing changes.
pub proof fn lemma_unasked_is_dropped(
    p: PathfinderView,
    source: PublicKey,
    xformed: PublicKey,
    seq: u64,
    path: Seq<PeerPort>,
    now: u64,
)
    requires
        !has_key(p.paths, source),
        !has_key(p.rumors, xformed),
    ensures
        notified(p, source, xformed, seq, path, now) == (p, false, None::<TrafficView>),
{
}

/// After a cleanup exactly the fresh paths and rumors are left.
pub proof fn lemma_cleanup_keeps_the_fresh(
    p: PathfinderView,
    timeout: u64,
    now: u64,
    key: PublicKey,
)
    requires
        pathfinder_wf(p),
    ensures
        get(cleaned(p, timeout, now).paths, key) == (match get(p.paths, key) {
            Some(i) => if elapsed(i.last_refresh, now) < timeout {
                Some(i)
            } else {
                None
            },
            None => None,
        }),
        get(cleaned(p, timeout, now).rumors, key) == (match get(p.rumors, key) {
            Some(r) => if elapsed(
                match r.send_time {
                    Some(t) => t,
                    None => r.created,
                },
                now,
            ) < timeout {
                Some(r)
            } else {
                None
            },
            None => None,
        }),
{
    crate::table::lemma_kept(p.paths, path_fresh(now, timeout));
    crate::table::lemma_kept(p.rumors, rumor_fresh(now, timeout));
}

/// A lookup that was just sent is throttled for the time set.
pub proof fn lemma_sent_lookup_is_throttled(
    p: PathfinderView,
    dest: PublicKey,
    throttle: u64,
    now: u64,
    later: u64,
)
    requires
        has_key(p.paths, dest),
        now <= later,
        later - now < throttle,
    ensures
        lookup_throttled(lookup_marked(p, dest, now), dest, throttle, later),
{
    let i = get(p.paths, dest)->0;
    lemma_put(p.paths, dest, PathInfoView { req_time: now, ..i });
}

/// A notification is accepted exactly if it is newer than the path that is known and either that is
/// broken or the path is another; or, where no path is known, if the node was asked for. What is
/// known of other nodes stays as it is, and so do the other rumors.
pub proof fn lemma_what_is_accepted(
    p: PathfinderView,
    source: PublicKey,
    xformed: PublicKey,
    seq: u64,
    path: Seq<PeerPort>,
    now: u64,
    k: PublicKey,
)
    ensures
        ({
            let (q, accepted, freed) = notified(p, source, xformed, seq, path, now);
            &&& accepted <==> match get(p.paths, source) {
                Some(i) => i.seq < seq && (i.broken || i.path != path),
                None => get(p.rumors, xformed) is Some,
            }
            &&& !accepted ==> q == p && freed is None
            &&& k != source ==> get(q.paths, k) == get(p.paths, k)
            &&& k != xformed ==> get(q.rumors, k) == get(p.rumors, k)
            &&& q.info == p.info
        }),
{
    assert forall|i: PathInfoView| #[trigger]
        get(put(p.paths, source, i), k) == (if k == source { Some(i) } else { get(p.paths, k) }) by {
        lemma_put(p.paths, source, i);
    }
    assert forall|r: PathRumorView| #[trigger]
        get(put(p.rumors, xformed, r), k) == (if k == xformed { Some(r) } else { get(p.rumors, k) }) by {
        lemma_put(p.rumors, xformed, r);
    }
}

/// A packet that waits is set free by the notification that it waits for, once: it is the one that
/// was cached with the path, or that waits for a path to just this node. A packet for another node
/// with the same transformed key goes on waiting.
pub proof fn lemma_waiting_packet_is_set_free(
    p: PathfinderView,
    source: PublicKey,
    xformed: PublicKey,
    seq: u64,
    path: Seq<PeerPort>,
    now: u64,
)
    requires
        notified(p, source, xformed, seq, path, now).1,
    ensures
        ({
            let (q, _, freed) = notified(p, source, xformed, seq, path, now);
            match get(p.paths, source) {
                Some(i) => {
                    &&& freed == i.cached_traffic
                    &&& get(q.paths, source)->0.cached_traffic is None
                    &&& q.rumors == p.rumors
                },
                None => {
                    let waits = get(p.rumors, xformed)->0.traffic;
                    let left = get(q.rumors, xformed)->0.traffic;
                    if waits matches Some(t) && t.dest == source {
                        freed == waits && left is None
                    } else {
                        freed is None && left == waits
                    }
                },
            }
        }),
{
    lemma_accepted_is_given(p, source, xformed, seq, path, now);
    match get(p.paths, source) {
        Some(i) => {
            lemma_put(
                p.paths,
                source,
                PathInfoView {
                    path,
                    seq,
                    broken: false,
                    last_refresh: now,
                    cached_traffic: None,
                    ..i
                },
            );
        },
        None => {
            let r = get(p.rumors, xformed)->0;
            lemma_put(p.rumors, xformed, r);
            lemma_put(p.rumors, xformed, PathRumorView { traffic: None, ..r });
        },
    }
}

/// A packet that is put to wait waits: it is cached with the rumor of its destination, whether there
/// was a rumor before or not, and no other rumor changes.
pub proof fn lemma_packet_waits_with_its_rumor(
    p: PathfinderView,
    x: PublicKey,
    t: TrafficView,
    now: u64,
    k: PublicKey,
)
    ensures
        ({
            let q = rumor_cached(rumor_ensured(p, x, now), x, t);
            &&& get(q.rumors, x) matches Some(r) && r.traffic == Some(t)
            &&& get(q.rumors, x)->0.send_time == (match get(p.rumors, x) {
                Some(r) => r.send_time,
                None => None,
            })
            &&& k != x ==> get(q.rumors, k) == get(p.rumors, k)
            &&& q.paths == p.paths
        }),
{
    let e = rumor_ensured(p, x, now);
    lemma_put(p.rumors, x, PathRumorView { traffic: None, send_time: None, created: now });
    let r = get(e.rumors, x)->0;
    assert(get(e.rumors, x) is Some);
    assert(k != x ==> get(e.rumors, k) == get(p.rumors, k));
    lemma_put(e.rumors, x, PathRumorView { traffic: Some(t), ..r });
}

/// Whether a lookup is held back: exactly if one went out less than the throttle ago. A rumor that
/// was never asked about holds nothing back, nor does one that is marked so.
pub proof fn lemma_when_lookups_are_held_back(
    p: PathfinderView,
    dest: PublicKey,
    throttle: u64,
    sent: u64,
    now: u64,
)
    requires
        sent <= now,
    ensures
        has_key(p.paths, dest) ==> (lookup_throttled(
            lookup_marked(p, dest, sent),
            dest,
            throttle,
            now,
        ) <==> now < sent + throttle),
        !has_key(p.paths, dest) ==> !lookup_throttled(p, dest, throttle, now),
        has_key(p.rumors, dest) ==> (rumor_throttled(
            rumor_marked(p, dest, Some(sent)),
            dest,
            throttle,
            now,
        ) <==> now < sent + throttle),
        !rumor_throttled(rumor_marked(p, dest, None), dest, throttle, now),
        !has_key(p.rumors, dest) ==> !rumor_throttled(
            rumor_ensured(p, dest, now),
            dest,
            throttle,
            now,
        ),
{
    if let Some(i) = get(p.paths, dest) {
        lemma_put(p.paths, dest, PathInfoView { req_time: sent, ..i });
    }
    if let Some(r) = get(p.rumors, dest) {
        lemma_put(p.rumors, dest, PathRumorView { send_time: Some(sent), ..r });
        lemma_put(p.rumors, dest, PathRumorView { send_time: None, ..r });
    } else {
        lemma_put(p.rumors, dest, PathRumorView { traffic: None, send_time: None, created: now });
    }
}

/// Traffic keeps a working path alive and leaves a broken one to expire; a path that breaks, is
/// refreshed or gets a packet keeps everything else that is known of it, and other paths are left
/// alone.
pub proof fn lemma_changes_to_a_path(
    p: PathfinderView,
    dest: PublicKey,
    t: TrafficView,
    now: u64,
    k: PublicKey,
)
    ensures
        get(path_refreshed(p, dest, now).paths, k) == (match get(p.paths, k) {
            Some(i) => if k == dest && !i.broken {
                Some(PathInfoView { last_refresh: now, ..i })
            } else {
                Some(i)
            },
            None => None,
        }),
        get(path_broken(p, dest).paths, k) == (match get(p.paths, k) {
            Some(i) => if k == dest {
                Some(PathInfoView { broken: true, ..i })
            } else {
                Some(i)
            },
            None => None,
        }),
        get(path_cached(p, dest, t).paths, k) == (match get(p.paths, k) {
            Some(i) => if k == dest {
                Some(PathInfoView { cached_traffic: Some(t), ..i })
            } else {
                Some(i)
            },
            None => None,
        }),
        path_refreshed(p, dest, now).rumors == p.rumors,
        path_broken(p, dest).rumors == p.rumors,
        path_cached(p, dest, t).rumors == p.rumors,
{
    assert forall|i: PathInfoView| #[trigger]
        get(put(p.paths, dest, i), k) == (if k == dest { Some(i) } else { get(p.paths, k) }) by {
        lemma_put(p.paths, dest, i);
    }
}

/// A path that is taken counts as used from now on. One to a node that had none counts as asked for
/// now as well; one that takes the place of another was asked for when that one was.
pub proof fn lemma_times_of_a_path(
    p: PathfinderView,
    source: PublicKey,
    xformed: PublicKey,
    seq: u64,
    path: Seq<PeerPort>,
    now: u64,
)
    requires
        notified(p, source, xformed, seq, path, now).1,
    ensures
        ({
            let q = notified(p, source, xformed, seq, path, now).0;
            &&& get(q.paths, source) matches Some(i) && i.last_refresh == now
            &&& get(p.paths, source) matches Some(was) ==> get(q.paths, source)->0.req_time
                == was.req_time
            &&& get(p.paths, source) is None ==> get(q.paths, source)->0.req_time == now
            &&& get(p.rumors, xformed) matches Some(r) ==> {
                &&& get(q.rumors, xformed)->0.send_time == r.send_time
                &&& get(q.rumors, xformed)->0.created == r.created
            }
        }),
{
    if let Some(i) = get(p.paths, source) {
        lemma_put(
            p.paths,
            source,
            PathInfoView {
                path,
                seq,
                broken: false,
                last_refresh: now,
                cached_traffic: None,
                ..i
            },
        );
    } else if let Some(r) = get(p.rumors, xformed) {
        let left = if freed_traffic(r, source) is Some {
            PathRumorView { traffic: None, ..r }
        } else {
            r
        };
        lemma_put(p.rumors, xformed, left);
        lemma_put(
            p.paths,
            source,
            PathInfoView {
                path,
                seq,
                req_time: now,
                last_refresh: now,
                cached_traffic: None,
                broken: false,
            },
        );
    }
}

} // verus!
