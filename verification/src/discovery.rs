//! Traffic and path discovery of the router.
use vstd::prelude::*;
use crate::bloom::key_bits;
use crate::blooms::{targets, KeyTransform};
use crate::bytes::{copy_u64s, key_eq, PublicKey};
use crate::crypto::{ed25519_accepts, ed25519_signature, Crypto};
use crate::pathfinder::{
    lookup_marked, lookup_throttled, notified, path_broken, path_cached, path_refreshed,
    rumor_cached, rumor_ensured, rumor_marked, rumor_throttled, signed_path, OwnPathInfo,
    PathInfoView, PathfinderView,
};
use crate::router::{
    actions_view, cached_for_dest, group_view, lemma_actions_concat, lemma_actions_push, router_wf,
    ActionView, PeerEntry, PeerId, Router, RouterAction, RouterView,
};
use crate::routing::{lowered, next_hop};
use crate::table::{get, has_key, lemma_mapped_find, lemma_put};
use crate::traffic::{opt_view, TrafficPacket};
use crate::tree::coords;
use crate::wire::{
    array_of, lemma_array_of, PathBroken, PathBrokenView, PathLookup, PathLookupView, PathNotify,
    PathNotifyInfo, PathNotifyInfoView, PathNotifyView, TrafficView,
};

verus! {

/// The present: nanoseconds on the clock that never goes back, and seconds since the epoch.
#[derive(Clone, Copy, Debug, PartialEq, Eq, Structural)]
pub struct Clock {
    pub now: u64,
    pub unix_secs: u64,
}

/// A router and the actions that it asks for.
pub type Outcome<T> = (RouterView<T>, Seq<ActionView>);

/// The router with another pathfinder.
pub open spec fn with_pathfinder<T>(v: RouterView<T>, p: PathfinderView) -> RouterView<T> {
    RouterView { pathfinder: p, ..v }
}

/// The connection of a group with the lowest priority number, the first among equals.
pub open spec fn least_prio(group: Seq<(PeerId, PeerEntry)>) -> Option<PeerEntry>
    decreases group.len(),
{
    if group.len() == 0 {
        None
    } else {
        match least_prio(group.drop_last()) {
            None => Some(group.last().1),
            Some(b) => if group.last().1.prio < b.prio {
                Some(group.last().1)
            } else {
                Some(b)
            },
        }
    }
}

/// The connection to a peer that is used for path lookups.
pub open spec fn best_peer<T>(v: RouterView<T>, key: PublicKey) -> Option<PeerId> {
    match get(v.peers, key) {
        Some(group) => match least_prio(group) {
            Some(e) => Some(e.id),
            None => None,
        },
        None => None,
    }
}

/// A lookup sent to each of the peers `keys` that is connected.
pub open spec fn multicast<T>(v: RouterView<T>, keys: Seq<PublicKey>, l: PathLookupView) -> Seq<
    ActionView,
>
    decreases keys.len(),
{
    if keys.len() == 0 {
        Seq::empty()
    } else {
        let rest = multicast(v, keys.drop_last(), l);
        match best_peer(v, keys.last()) {
            Some(peer_id) => rest.push(ActionView::SendPathLookup { peer_id, lookup: l }),
            None => rest,
        }
    }
}

/// What becomes of a packet for us: it goes on if a peer is closer to the end of its path, and
/// is delivered if not.
pub open spec fn forwarded<T>(v: RouterView<T>, tr: TrafficView, now: u64) -> Outcome<T> {
    match next_hop(v, tr.path, tr.watermark) {
        Some(peer_id) => (
            v,
            seq![
                ActionView::SendTraffic {
                    peer_id,
                    traffic: TrafficView { watermark: lowered(v, tr.path, tr.watermark), ..tr },
                },
            ],
        ),
        None => (
            with_pathfinder(v, path_refreshed(v.pathfinder, tr.source, now)),
            seq![ActionView::DeliverTraffic { traffic: tr }],
        ),
    }
}

/// What becomes of a notification, where `f` says what becomes of a packet that it sets free:
/// it goes on if a peer is closer to the end of its path. If not, and it is for us and its
/// signature is valid, its path is taken up; an accepted path is reported.
pub open spec fn notify_done<T: KeyTransform>(
    v: RouterView<T>,
    n: PathNotifyView,
    now: u64,
    f: spec_fn(RouterView<T>, TrafficView) -> Outcome<T>,
) -> Outcome<T> {
    match next_hop(v, n.path, n.watermark) {
        Some(peer_id) => (
            v,
            seq![
                ActionView::SendPathNotify {
                    peer_id,
                    notify: PathNotifyView { watermark: lowered(v, n.path, n.watermark), ..n },
                },
            ],
        ),
        None => if n.dest != v.key || !ed25519_accepts(
            n.source@,
            signed_path(n.info.seq, n.info.path),
            n.info.sig@,
        ) {
            (v, Seq::empty())
        } else {
            let (p, accepted, freed) = notified(
                v.pathfinder,
                n.source,
                v.transform.transformed(n.source),
                n.info.seq,
                n.info.path,
                now,
            );
            let u = with_pathfinder(v, p);
            let (end, sent) = match freed {
                Some(t) => f(
                    u,
                    TrafficView { path: n.info.path, from: coords(u.infos, u.key), ..t },
                ),
                None => (u, Seq::empty()),
            };
            (
                end,
                if accepted {
                    sent.push(ActionView::PathNotifyCallback { key: n.source })
                } else {
                    sent
                },
            )
        },
    }
}

/// What becomes of a notification of our own: a packet that it sets free is for us.
pub open spec fn own_notify_done<T: KeyTransform>(
    v: RouterView<T>,
    n: PathNotifyView,
    now: u64,
) -> Outcome<T> {
    notify_done(v, n, now, |u: RouterView<T>, t: TrafficView| forwarded(u, t, now))
}

/// Our own path as we answer lookups with it: signed anew if it is not the one signed last.
pub open spec fn own_path<T>(v: RouterView<T>, c: Clock) -> PathNotifyInfoView {
    let path = coords(v.infos, v.key);
    if v.pathfinder.info.seq == c.unix_secs && v.pathfinder.info.path == path {
        v.pathfinder.info
    } else {
        PathNotifyInfoView {
            seq: c.unix_secs,
            path,
            sig: array_of::<64>(ed25519_signature(v.secret, signed_path(c.unix_secs, path))),
        }
    }
}

/// What becomes of a lookup: it goes to every tree neighbour, other than the one it came from,
/// whose filter may hold the destination; and it is answered if the destination may be us.
pub open spec fn lookup_done<T: KeyTransform>(
    v: RouterView<T>,
    from: PublicKey,
    l: PathLookupView,
    c: Clock,
) -> Outcome<T> {
    let sent = multicast(
        v,
        targets(v.blooms, from, key_bits(v.transform.transformed(l.dest)@)),
        l,
    );
    if v.transform.transformed(l.dest) == v.transform.transformed(v.key) {
        let own = own_path(v, c);
        let u = with_pathfinder(v, PathfinderView { info: own, ..v.pathfinder });
        let n = PathNotifyView {
            path: l.from,
            watermark: u64::MAX,
            source: v.key,
            dest: l.source,
            info: own,
        };
        let (end, answer) = own_notify_done(u, n, c.now);
        (end, sent + answer)
    } else {
        (v, sent)
    }
}

/// A lookup of our own for `dest`, unless one was sent not long ago.
pub open spec fn lookup_sent<T: KeyTransform>(
    v: RouterView<T>,
    dest: PublicKey,
    c: Clock,
) -> Outcome<T> {
    if lookup_throttled(v.pathfinder, dest, v.config.path_throttle, c.now) {
        (v, Seq::empty())
    } else {
        let u = with_pathfinder(v, lookup_marked(v.pathfinder, dest, c.now));
        lookup_done(
            u,
            v.key,
            PathLookupView { source: v.key, dest, from: coords(v.infos, v.key) },
            c,
        )
    }
}

/// What becomes of word that a path broke: it goes on if a peer is closer to the end of its
/// path. If not, and the path is ours, the path counts as broken and is looked up again.
pub open spec fn broken_done<T: KeyTransform>(
    v: RouterView<T>,
    b: PathBrokenView,
    c: Clock,
) -> Outcome<T> {
    match next_hop(v, b.path, b.watermark) {
        Some(peer_id) => (
            v,
            seq![
                ActionView::SendPathBroken {
                    peer_id,
                    broken: PathBrokenView { watermark: lowered(v, b.path, b.watermark), ..b },
                },
            ],
        ),
        None => if b.source != v.key {
            (v, Seq::empty())
        } else {
            lookup_sent(with_pathfinder(v, path_broken(v.pathfinder, b.dest)), b.dest, c)
        },
    }
}

/// What becomes of a packet: it goes on if a peer is closer to the end of its path. If not, it
/// is delivered if it is for us, and its source is told that the path broke if it is not.
pub open spec fn routed<T: KeyTransform>(v: RouterView<T>, tr: TrafficView, c: Clock) -> Outcome<
    T,
> {
    if tr.dest == v.key || next_hop(v, tr.path, tr.watermark) is Some {
        forwarded(v, tr, c.now)
    } else {
        broken_done(
            v,
            PathBrokenView {
                path: tr.from,
                watermark: u64::MAX,
                source: tr.source,
                dest: tr.dest,
            },
            c,
        )
    }
}

/// What becomes of a notification.
pub open spec fn notify_handled<T: KeyTransform>(
    v: RouterView<T>,
    n: PathNotifyView,
    c: Clock,
) -> Outcome<T> {
    notify_done(v, n, c.now, |u: RouterView<T>, t: TrafficView| routed(u, t, c))
}

/// What becomes of a packet from the local application: with a working path it is routed along
/// it, and a copy is kept if none is; without one it waits while the path is looked up.
pub open spec fn sent_out<T: KeyTransform>(v: RouterView<T>, tr: TrafficView, c: Clock) -> Outcome<
    T,
> {
    match get(v.pathfinder.paths, tr.dest) {
        Some(i) if !i.broken => {
            let t = TrafficView { path: i.path, from: coords(v.infos, v.key), ..tr };
            let p = if i.cached_traffic is None {
                path_cached(v.pathfinder, tr.dest, t)
            } else {
                v.pathfinder
            };
            routed(with_pathfinder(v, p), t, c)
        },
        _ => {
            let x = v.transform.transformed(tr.dest);
            let p = rumor_cached(rumor_ensured(v.pathfinder, x, c.now), x, tr);
            if rumor_throttled(p, x, v.config.path_throttle, c.now) {
                (with_pathfinder(v, p), Seq::empty())
            } else {
                lookup_sent(
                    with_pathfinder(v, rumor_marked(p, x, Some(c.now))),
                    tr.dest,
                    c,
                )
            }
        },
    }
}

/// A lookup that the application asks for: an earlier rumor does not hold it back.
pub open spec fn lookup_forced<T: KeyTransform>(
    v: RouterView<T>,
    dest: PublicKey,
    c: Clock,
) -> Outcome<T> {
    let x = v.transform.transformed(dest);
    let p = if has_key(v.pathfinder.rumors, x) {
        rumor_marked(v.pathfinder, x, None)
    } else {
        rumor_ensured(v.pathfinder, x, c.now)
    };
    lookup_sent(with_pathfinder(v, p), dest, c)
}

// ---------------------------------------------------------------------------
// Keeping the invariant
// ---------------------------------------------------------------------------

proof fn lemma_path_put(p: PathfinderView, k: PublicKey, i: PathInfoView)
    requires
        cached_for_dest(p),
        i.cached_traffic matches Some(t) ==> t.dest == k,
    ensures
        cached_for_dest(crate::pathfinder::with_path(p, k, i)),
{
    lemma_put(p.paths, k, i);
}

proof fn lemma_changes_keep_cached(
    p: PathfinderView,
    k: PublicKey,
    x: PublicKey,
    t: TrafficView,
    now: u64,
    sent: Option<u64>,
)
    requires
        cached_for_dest(p),
    ensures
        cached_for_dest(path_refreshed(p, k, now)),
        cached_for_dest(path_broken(p, k)),
        cached_for_dest(lookup_marked(p, k, now)),
        cached_for_dest(rumor_ensured(p, x, now)),
        cached_for_dest(rumor_marked(p, x, sent)),
        cached_for_dest(rumor_cached(p, x, t)),
        t.dest == k ==> cached_for_dest(path_cached(p, k, t)),
{
    match get(p.paths, k) {
        Some(i) => {
            lemma_path_put(p, k, PathInfoView { last_refresh: now, ..i });
            lemma_path_put(p, k, PathInfoView { broken: true, ..i });
            lemma_path_put(p, k, PathInfoView { req_time: now, ..i });
            if t.dest == k {
                lemma_path_put(p, k, PathInfoView { cached_traffic: Some(t), ..i });
            }
        },
        None => {},
    }
}

proof fn lemma_notified_keeps_cached(
    p: PathfinderView,
    source: PublicKey,
    x: PublicKey,
    seq: u64,
    path: Seq<u64>,
    now: u64,
)
    requires
        cached_for_dest(p),
    ensures
        cached_for_dest(notified(p, source, x, seq, path, now).0),
        notified(p, source, x, seq, path, now).2 matches Some(t) ==> t.dest == source,
{
    match get(p.paths, source) {
        Some(i) => {
            lemma_path_put(
                p,
                source,
                PathInfoView {
                    path,
                    seq,
                    broken: false,
                    last_refresh: now,
                    cached_traffic: None,
                    ..i
                },
            );
        },
        None => {
            lemma_path_put(
                p,
                source,
                PathInfoView {
                    path,
                    seq,
                    req_time: now,
                    last_refresh: now,
                    cached_traffic: None,
                    broken: false,
                },
            );
        },
    }
}

/// What is left to be done after a notification was looked at.
enum NotifyStep {
    /// Nothing but these actions.
    Done(Vec<RouterAction>),
    /// The path was looked at: whether it was accepted, and a packet that it set free.
    Taken(bool, Option<TrafficPacket>),
}

impl<T: KeyTransform> Router<T> {
    fn best_peer_for_key(&self, key: &PublicKey) -> (r: Option<PeerId>)
        ensures
            r == best_peer(self@, *key),
    {
        proof {
            lemma_mapped_find(self.peers@, group_view(), *key);
        }
        match self.peers.get(key) {
            Some(group) => {
                let mut best: Option<PeerEntry> = None;
                let mut i: usize = 0;
                assert(group@.take(0) =~= Seq::empty());
                while i < group.len()
                    invariant
                        i <= group@.len(),
                        best == least_prio(group@.take(i as int)),
                    decreases group@.len() - i,
                {
                    let e = *group.value_at(i);
                    assert(group@.take(i + 1).drop_last() =~= group@.take(i as int));
                    match best {
                        None => {
                            best = Some(e);
                        },
                        Some(b) => {
                            if e.prio < b.prio {
                                best = Some(e);
                            }
                        },
                    }
                    i += 1;
                }
                assert(group@.take(i as int) =~= group@);
                match best {
                    Some(e) => Some(e.id),
                    None => None,
                }
            },
            None => None,
        }
    }

    /// Sends a packet on, or delivers it locally.
    fn forward_or_deliver(&mut self, packet: TrafficPacket, now: u64) -> (actions: Vec<RouterAction>)
        requires
            old(self).wf(),
        ensures
            final(self).wf(),
            (final(self)@, actions_view(actions@)) == forwarded(old(self)@, packet@, now),
    {
        let mut actions: Vec<RouterAction> = Vec::new();
        let mut tr = packet;
        let mut watermark: u64 = tr.watermark;
        let ghost v = self@;
        let hop = self.lookup(&tr.path, &mut watermark);
        match hop {
            Some(peer_id) => {
                tr.watermark = watermark;
                actions.push(RouterAction::SendTraffic { peer_id, traffic: tr });
            },
            None => {
                proof {
                    lemma_changes_keep_cached(v.pathfinder, tr.source, tr.source, tr@, now, None);
                }
                self.pathfinder.reset_timeout(&tr.source, now);
                actions.push(RouterAction::DeliverTraffic { traffic: tr });
            },
        }
        assert(actions_view(actions@) =~= forwarded(v, packet@, now).1);
        actions
    }

    /// Looks at a notification: sends it on, drops it, or takes up its path.
    fn take_notify(&mut self, notify: &PathNotify, now: u64) -> (r: NotifyStep)
        requires
            old(self).wf(),
        ensures
            final(self).wf(),
            match r {
                NotifyStep::Done(actions) => forall|
                    f: spec_fn(RouterView<T>, TrafficView) -> Outcome<T>,
                |
                    (final(self)@, actions_view(actions@)) == #[trigger] notify_done(
                        old(self)@,
                        notify@,
                        now,
                        f,
                    ),
                NotifyStep::Taken(accepted, traffic) => {
                    let v = old(self)@;
                    let n = notify@;
                    let (p, a, freed) = notified(
                        v.pathfinder,
                        n.source,
                        v.transform.transformed(n.source),
                        n.info.seq,
                        n.info.path,
                        now,
                    );
                    &&& next_hop(v, n.path, n.watermark) is None
                    &&& n.dest == v.key
                    &&& ed25519_accepts(
                        n.source@,
                        signed_path(n.info.seq, n.info.path),
                        n.info.sig@,
                    )
                    &&& final(self)@ == with_pathfinder(v, p)
                    &&& accepted == a
                    &&& opt_view(traffic) == freed
                    &&& freed matches Some(t) ==> t.dest == n.source
                },
            },
    {
        let ghost v = self@;
        let mut watermark: u64 = notify.watermark;
        let hop = self.lookup(&notify.path, &mut watermark);
        match hop {
            Some(peer_id) => {
                let mut fwd = notify.clone();
                fwd.watermark = watermark;
                let mut actions: Vec<RouterAction> = Vec::new();
                actions.push(RouterAction::SendPathNotify { peer_id, notify: fwd });
                proof {
                    let goal = seq![
                        ActionView::SendPathNotify {
                            peer_id,
                            notify: PathNotifyView { watermark, ..notify@ },
                        },
                    ];
                    assert(actions_view(actions@) =~= goal);
                }
                return NotifyStep::Done(actions);
            },
            None => {},
        }
        let none: Vec<RouterAction> = Vec::new();
        assert(actions_view(none@) =~= Seq::empty());
        if !key_eq(&notify.dest, &self.crypto.public_key) {
            return NotifyStep::Done(none);
        }
        let signed = OwnPathInfo {
            seq: notify.info.seq,
            path: copy_u64s(&notify.info.path),
            sig: notify.info.sig,
        };
        let info_bytes = signed.bytes_for_sig();
        if !Crypto::verify(&notify.source, &info_bytes, &notify.info.sig) {
            return NotifyStep::Done(none);
        }
        let xformed_source = self.blooms.x_key(&notify.source, &self.bloom_transform);
        proof {
            lemma_notified_keeps_cached(
                v.pathfinder,
                notify.source,
                xformed_source,
                notify.info.seq,
                notify.info.path@,
                now,
            );
        }
        let (accepted, traffic) = self.pathfinder.accept_notify(
            notify.source,
            xformed_source,
            notify.info.seq,
            copy_u64s(&notify.info.path),
            now,
        );
        NotifyStep::Taken(accepted, traffic)
    }

    /// Handles a notification of our own.
    fn handle_own_notify(&mut self, notify: &PathNotify, now: u64) -> (actions: Vec<RouterAction>)
        requires
            old(self).wf(),
        ensures
            final(self).wf(),
            (final(self)@, actions_view(actions@)) == own_notify_done(old(self)@, notify@, now),
    {
        match self.take_notify(notify, now) {
            NotifyStep::Done(actions) => actions,
            NotifyStep::Taken(accepted, traffic) => {
                let mut actions: Vec<RouterAction> = Vec::new();
                assert(actions_view(actions@) =~= Seq::empty());
                match traffic {
                    Some(t) => {
                        let mut t = t;
                        t.path = copy_u64s(&notify.info.path);
                        let (_, from) = self.get_root_and_path(&self.crypto.public_key);
                        t.from = from;
                        actions = self.forward_or_deliver(t, now);
                    },
                    None => {},
                }
                if accepted {
                    let a = RouterAction::PathNotifyCallback { key: notify.source };
                    proof {
                        lemma_actions_push(actions@, a);
                    }
                    actions.push(a);
                }
                actions
            },
        }
    }

    fn handle_lookup_internal(
        &mut self,
        from_key: &PublicKey,
        lookup: &PathLookup,
        clock: Clock,
    ) -> (actions: Vec<RouterAction>)
        requires
            old(self).wf(),
        ensures
            final(self).wf(),
            (final(self)@, actions_view(actions@)) == lookup_done(
                old(self)@,
                *from_key,
                lookup@,
                clock,
            ),
    {
        let ghost v = self@;
        let mut actions: Vec<RouterAction> = Vec::new();
        let keys = self.blooms.get_multicast_targets(
            from_key,
            &lookup.dest,
            &self.bloom_transform,
        );
        let mut i: usize = 0;
        assert(keys@.take(0) =~= Seq::empty());
        assert(actions_view(actions@) =~= Seq::empty());
        while i < keys.len()
            invariant
                *self == *old(self),
                v == self@,
                i <= keys@.len(),
                actions_view(actions@) == multicast(v, keys@.take(i as int), lookup@),
            decreases keys@.len() - i,
        {
            assert(keys@.take(i + 1).drop_last() =~= keys@.take(i as int));
            let k = keys[i];
            match self.best_peer_for_key(&k) {
                Some(peer_id) => {
                    let a = RouterAction::SendPathLookup { peer_id, lookup: lookup.clone() };
                    proof {
                        lemma_actions_push(actions@, a);
                    }
                    actions.push(a);
                },
                None => {},
            }
            i += 1;
        }
        assert(keys@.take(i as int) =~= keys@);
        let dx = self.blooms.x_key(&lookup.dest, &self.bloom_transform);
        let sx = self.blooms.x_key(&self.crypto.public_key, &self.bloom_transform);
        if key_eq(&dx, &sx) {
            let self_key = self.crypto.public_key;
            let (_, path) = self.get_root_and_path(&self_key);
            let mut info = OwnPathInfo { seq: clock.unix_secs, path, sig: [0u8;64] };
            if !self.pathfinder.info.content_equal(&info) {
                info.sign(&self.crypto);
                proof {
                    lemma_array_of(info.sig);
                }
                self.pathfinder.info = info.clone();
            } else {
                info = self.pathfinder.info.clone();
            }
            assert(info@ == own_path(v, clock));
            let notify = PathNotify {
                path: copy_u64s(&lookup.from),
                watermark: u64::MAX,
                source: self_key,
                dest: lookup.source,
                info: PathNotifyInfo { seq: info.seq, path: info.path, sig: info.sig },
            };
            assert(self@.pathfinder == (PathfinderView {
                info: own_path(v, clock),
                ..v.pathfinder
            }));
            let mut answer = self.handle_own_notify(&notify, clock.now);
            proof {
                lemma_actions_concat(actions@, answer@);
            }
            actions.append(&mut answer);
        }
        actions
    }

    fn do_send_lookup(&mut self, dest: &PublicKey, clock: Clock) -> (actions: Vec<RouterAction>)
        requires
            old(self).wf(),
        ensures
            final(self).wf(),
            (final(self)@, actions_view(actions@)) == lookup_sent(old(self)@, *dest, clock),
    {
        let throttle: u64 = self.config.path_throttle;
        if self.pathfinder.should_throttle_lookup(dest, throttle, clock.now) {
            let none: Vec<RouterAction> = Vec::new();
            assert(actions_view(none@) =~= Seq::empty());
            return none;
        }
        proof {
            let t = arbitrary();
            lemma_changes_keep_cached(self@.pathfinder, *dest, *dest, t, clock.now, None);
        }
        self.pathfinder.mark_lookup_sent(dest, clock.now);
        let self_key = self.crypto.public_key;
        let (_, from) = self.get_root_and_path(&self_key);
        let lookup = PathLookup { source: self_key, dest: *dest, from };
        self.handle_lookup_internal(&self_key, &lookup, clock)
    }

    fn handle_broken_internal(&mut self, broken: &PathBroken, clock: Clock) -> (actions: Vec<
        RouterAction,
    >)
        requires
            old(self).wf(),
        ensures
            final(self).wf(),
            (final(self)@, actions_view(actions@)) == broken_done(old(self)@, broken@, clock),
    {
        let ghost v = self@;
        let mut actions: Vec<RouterAction> = Vec::new();
        let mut watermark: u64 = broken.watermark;
        let hop = self.lookup(&broken.path, &mut watermark);
        match hop {
            Some(peer_id) => {
                let mut fwd = broken.clone();
                fwd.watermark = watermark;
                actions.push(RouterAction::SendPathBroken { peer_id, broken: fwd });
                assert(actions_view(actions@) =~= broken_done(v, broken@, clock).1);
                return actions;
            },
            None => {},
        }
        if !key_eq(&broken.source, &self.crypto.public_key) {
            assert(actions_view(actions@) =~= Seq::empty());
            return actions;
        }
        proof {
            let t = arbitrary();
            lemma_changes_keep_cached(v.pathfinder, broken.dest, broken.dest, t, 0, None);
        }
        self.pathfinder.handle_broken(&broken.dest);
        self.do_send_lookup(&broken.dest, clock)
    }

    fn do_broken(&mut self, tr: &TrafficPacket, clock: Clock) -> (actions: Vec<RouterAction>)
        requires
            old(self).wf(),
        ensures
            final(self).wf(),
            (final(self)@, actions_view(actions@)) == broken_done(
                old(self)@,
                PathBrokenView {
                    path: tr.from@,
                    watermark: u64::MAX,
                    source: tr.source,
                    dest: tr.dest,
                },
                clock,
            ),
    {
        let broken = PathBroken {
            path: copy_u64s(&tr.from),
            watermark: u64::MAX,
            source: tr.source,
            dest: tr.dest,
        };
        self.handle_broken_internal(&broken, clock)
    }

    /// Routes traffic to the next hop or delivers it locally.
    pub fn route_traffic(&mut self, tr: TrafficPacket, clock: Clock) -> (actions: Vec<
        RouterAction,
    >)
        requires
            old(self).wf(),
        ensures
            final(self).wf(),
            (final(self)@, actions_view(actions@)) == routed(old(self)@, tr@, clock),
    {
        let mut watermark: u64 = tr.watermark;
        let hop = self.lookup(&tr.path, &mut watermark);
        if hop.is_some() || key_eq(&tr.dest, &self.crypto.public_key) {
            self.forward_or_deliver(tr, clock.now)
        } else {
            self.do_broken(&tr, clock)
        }
    }

    /// Handles incoming traffic from a peer.
    pub fn handle_traffic(&mut self, tr: TrafficPacket, clock: Clock) -> (actions: Vec<
        RouterAction,
    >)
        requires
            old(self).wf(),
        ensures
            final(self).wf(),
            (final(self)@, actions_view(actions@)) == routed(old(self)@, tr@, clock),
    {
        self.route_traffic(tr, clock)
    }

    /// Handles outbound traffic (from the local application).
    pub fn send_traffic(&mut self, tr: TrafficPacket, clock: Clock) -> (actions: Vec<
        RouterAction,
    >)
        requires
            old(self).wf(),
        ensures
            final(self).wf(),
            (final(self)@, actions_view(actions@)) == sent_out(old(self)@, tr@, clock),
    {
        let ghost v = self@;
        let dest = tr.dest;
        let known: Option<Vec<u64>> = match self.pathfinder.get_path(&dest) {
            Some(path) => Some(copy_u64s(path)),
            None => None,
        };
        match known {
            Some(path) => {
                let mut t = tr;
                t.path = path;
                let (_, from) = self.get_root_and_path(&self.crypto.public_key);
                t.from = from;
                if self.pathfinder.needs_traffic_cache(&dest) {
                    let cached = t.clone();
                    proof {
                        lemma_changes_keep_cached(v.pathfinder, dest, dest, t@, 0, None);
                    }
                    self.pathfinder.cache_traffic(&dest, cached);
                }
                self.route_traffic(t, clock)
            },
            None => {
                let xform = self.blooms.x_key(&dest, &self.bloom_transform);
                let ghost tv = tr@;
                proof {
                    lemma_changes_keep_cached(v.pathfinder, dest, xform, tv, clock.now, None);
                    let p1 = rumor_ensured(v.pathfinder, xform, clock.now);
                    lemma_changes_keep_cached(p1, dest, xform, tv, clock.now, None);
                    let p2 = rumor_cached(p1, xform, tv);
                    lemma_changes_keep_cached(
                        p2,
                        dest,
                        xform,
                        tv,
                        clock.now,
                        Some(clock.now),
                    );
                }
                let _ = self.pathfinder.ensure_rumor(xform, clock.now);
                self.pathfinder.cache_rumor_traffic(&xform, tr);
                let throttle: u64 = self.config.path_throttle;
                if self.pathfinder.should_throttle_rumor(&xform, throttle, clock.now) {
                    let none: Vec<RouterAction> = Vec::new();
                    assert(actions_view(none@) =~= Seq::empty());
                    return none;
                }
                self.pathfinder.mark_rumor_sent(&xform, clock.now);
                self.do_send_lookup(&dest, clock)
            },
        }
    }

    /// Forces a path lookup for the given destination, bypassing the rumor throttle.
    pub fn force_lookup(&mut self, dest: PublicKey, clock: Clock) -> (actions: Vec<RouterAction>)
        requires
            old(self).wf(),
        ensures
            final(self).wf(),
            (final(self)@, actions_view(actions@)) == lookup_forced(old(self)@, dest, clock),
    {
        let ghost v = self@;
        let xform = self.blooms.x_key(&dest, &self.bloom_transform);
        proof {
            let t = arbitrary();
            lemma_changes_keep_cached(v.pathfinder, dest, xform, t, clock.now, None);
            lemma_mapped_find(
                self.pathfinder.rumors@,
                crate::pathfinder::rumor_view(),
                xform,
            );
        }
        if self.pathfinder.rumors.contains_key(&xform) {
            self.pathfinder.reset_rumor(&xform);
        } else {
            let _ = self.pathfinder.ensure_rumor(xform, clock.now);
        }
        self.do_send_lookup(&dest, clock)
    }

    /// Handles an incoming lookup from a peer. A lookup from a peer that is no tree neighbour
    /// is dropped.
    pub fn handle_lookup(&mut self, peer_key: &PublicKey, lookup: &PathLookup, clock: Clock) -> (
    actions: Vec<RouterAction>)
        requires
            old(self).wf(),
        ensures
            final(self).wf(),
            (final(self)@, actions_view(actions@)) == (if get(
                old(self)@.blooms,
                *peer_key,
            ) matches Some(i) && i.on_tree {
                lookup_done(old(self)@, *peer_key, lookup@, clock)
            } else {
                (old(self)@, Seq::empty())
            }),
    {
        if !self.blooms.is_on_tree(peer_key) {
            let none: Vec<RouterAction> = Vec::new();
            assert(actions_view(none@) =~= Seq::empty());
            return none;
        }
        self.handle_lookup_internal(peer_key, lookup, clock)
    }

    /// Handles an incoming path notification from a peer.
    pub fn handle_notify(&mut self, notify: &PathNotify, clock: Clock) -> (actions: Vec<
        RouterAction,
    >)
        requires
            old(self).wf(),
        ensures
            final(self).wf(),
            (final(self)@, actions_view(actions@)) == notify_handled(old(self)@, notify@, clock),
    {
        match self.take_notify(notify, clock.now) {
            NotifyStep::Done(actions) => actions,
            NotifyStep::Taken(accepted, traffic) => {
                let mut actions: Vec<RouterAction> = Vec::new();
                assert(actions_view(actions@) =~= Seq::empty());
                match traffic {
                    Some(t) => {
                        let mut t = t;
                        t.path = copy_u64s(&notify.info.path);
                        let (_, from) = self.get_root_and_path(&self.crypto.public_key);
                        t.from = from;
                        actions = self.route_traffic(t, clock);
                    },
                    None => {},
                }
                if accepted {
                    let a = RouterAction::PathNotifyCallback { key: notify.source };
                    proof {
                        lemma_actions_push(actions@, a);
                    }
                    actions.push(a);
                }
                actions
            },
        }
    }

    /// Handles incoming word of a broken path from a peer.
    pub fn handle_broken(&mut self, broken: &PathBroken, clock: Clock) -> (actions: Vec<
        RouterAction,
    >)
        requires
            old(self).wf(),
        ensures
            final(self).wf(),
            (final(self)@, actions_view(actions@)) == broken_done(old(self)@, broken@, clock),
    {
        self.handle_broken_internal(broken, clock)
    }
}

// ---------------------------------------------------------------------------
// Laws of discovery
// ---------------------------------------------------------------------------

/// A notification of our own is handled like one from anybody else: what it sets free is for
/// us, so that it never leads to another lookup.
pub proof fn lemma_own_notify_is_no_exception<T: KeyTransform>(
    v: RouterView<T>,
    n: PathNotifyView,
    c: Clock,
)
    requires
        router_wf(v),
        n.source == v.key,
    ensures
        own_notify_done(v, n, c.now) == notify_handled(v, n, c),
{
    lemma_notified_keeps_cached(
        v.pathfinder,
        n.source,
        v.transform.transformed(n.source),
        n.info.seq,
        n.info.path,
        c.now,
    );
}

/// Whether every packet that is delivered is addressed to `key`.
pub open spec fn delivers_only_to(key: PublicKey, actions: Seq<ActionView>) -> bool {
    forall|i: int|
        0 <= i < actions.len() ==> (#[trigger] actions[i] matches ActionView::DeliverTraffic {
            traffic,
        } ==> traffic.dest == key)
}

proof fn lemma_multicast_delivers_nothing<T>(
    v: RouterView<T>,
    keys: Seq<PublicKey>,
    l: PathLookupView,
)
    ensures
        delivers_only_to(v.key, multicast(v, keys, l)),
    decreases keys.len(),
{
    if keys.len() > 0 {
        lemma_multicast_delivers_nothing(v, keys.drop_last(), l);
    }
}

proof fn lemma_lookup_delivers_ours<T: KeyTransform>(
    v: RouterView<T>,
    from: PublicKey,
    l: PathLookupView,
    c: Clock,
)
    requires
        cached_for_dest(v.pathfinder),
    ensures
        delivers_only_to(v.key, lookup_done(v, from, l, c).1),
{
    let keys = targets(v.blooms, from, key_bits(v.transform.transformed(l.dest)@));
    lemma_multicast_delivers_nothing(v, keys, l);
    let own = own_path(v, c);
    let u = with_pathfinder(v, PathfinderView { info: own, ..v.pathfinder });
    lemma_notified_keeps_cached(
        u.pathfinder,
        v.key,
        v.transform.transformed(v.key),
        own.seq,
        own.path,
        c.now,
    );
}

/// Only traffic that is addressed to us reaches the local application, whatever packet comes
/// in.
pub proof fn lemma_only_our_traffic_is_delivered<T: KeyTransform>(
    v: RouterView<T>,
    tr: TrafficView,
    c: Clock,
)
    requires
        router_wf(v),
    ensures
        delivers_only_to(v.key, routed(v, tr, c).1),
{
    let p1 = path_broken(v.pathfinder, tr.dest);
    lemma_changes_keep_cached(v.pathfinder, tr.dest, tr.dest, tr, c.now, None);
    lemma_changes_keep_cached(p1, tr.dest, tr.dest, tr, c.now, None);
    let u = with_pathfinder(v, lookup_marked(p1, tr.dest, c.now));
    let l = PathLookupView { source: v.key, dest: tr.dest, from: coords(v.infos, v.key) };
    lemma_lookup_delivers_ours(u, v.key, l, c);
}

/// A notification with an invalid signature changes nothing and is not reported.
pub proof fn lemma_forged_notify_is_dropped<T: KeyTransform>(
    v: RouterView<T>,
    n: PathNotifyView,
    c: Clock,
)
    requires
        next_hop(v, n.path, n.watermark) is None,
        !ed25519_accepts(n.source@, signed_path(n.info.seq, n.info.path), n.info.sig@),
    ensures
        notify_handled(v, n, c) == (v, Seq::<ActionView>::empty()),
{
}

/// Whether two routers differ in what the pathfinder knows at most.
pub open spec fn same_but_paths<T>(u: RouterView<T>, v: RouterView<T>) -> bool {
    u == with_pathfinder(v, u.pathfinder)
}

proof fn lemma_lookup_touches_only_paths<T: KeyTransform>(
    v: RouterView<T>,
    l: PathLookupView,
    from: PublicKey,
    c: Clock,
)
    ensures
        same_but_paths(lookup_done(v, from, l, c).0, v),
{
}

proof fn lemma_lookup_sent_touches_only_paths<T: KeyTransform>(
    v: RouterView<T>,
    dest: PublicKey,
    c: Clock,
)
    ensures
        same_but_paths(lookup_sent(v, dest, c).0, v),
{
    let u = with_pathfinder(v, lookup_marked(v.pathfinder, dest, c.now));
    let l = PathLookupView { source: v.key, dest, from: coords(v.infos, v.key) };
    lemma_lookup_touches_only_paths(u, l, v.key, c);
}

proof fn lemma_broken_touches_only_paths<T: KeyTransform>(
    v: RouterView<T>,
    b: PathBrokenView,
    c: Clock,
)
    ensures
        same_but_paths(broken_done(v, b, c).0, v),
{
    let u = with_pathfinder(v, path_broken(v.pathfinder, b.dest));
    lemma_lookup_sent_touches_only_paths(u, b.dest, c);
}

proof fn lemma_routing_touches_only_paths<T: KeyTransform>(
    v: RouterView<T>,
    tr: TrafficView,
    c: Clock,
)
    ensures
        same_but_paths(routed(v, tr, c).0, v),
{
    let b = PathBrokenView {
        path: tr.from,
        watermark: u64::MAX,
        source: tr.source,
        dest: tr.dest,
    };
    lemma_broken_touches_only_paths(v, b, c);
}

/// Path discovery leaves tree, peers, filters and identity as they are: nothing that comes in
/// as traffic, lookup, notification or breakage changes more than what the pathfinder knows.
pub proof fn lemma_discovery_touches_only_paths<T: KeyTransform>(
    v: RouterView<T>,
    tr: TrafficView,
    n: PathNotifyView,
    b: PathBrokenView,
    l: PathLookupView,
    from: PublicKey,
    c: Clock,
)
    ensures
        same_but_paths(routed(v, tr, c).0, v),
        same_but_paths(notify_handled(v, n, c).0, v),
        same_but_paths(broken_done(v, b, c).0, v),
        same_but_paths(lookup_done(v, from, l, c).0, v),
{
    lemma_routing_touches_only_paths(v, tr, c);
    lemma_broken_touches_only_paths(v, b, c);
    lemma_lookup_touches_only_paths(v, l, from, c);
    let (p, accepted, freed) = notified(
        v.pathfinder,
        n.source,
        v.transform.transformed(n.source),
        n.info.seq,
        n.info.path,
        c.now,
    );
    let u = with_pathfinder(v, p);
    match freed {
        Some(t) => {
            lemma_routing_touches_only_paths(
                u,
                TrafficView { path: n.info.path, from: coords(u.infos, u.key), ..t },
                c,
            );
        },
        None => {},
    }
}

proof fn lemma_least_prio_is_least(group: Seq<(PeerId, PeerEntry)>, i: int)
    requires
        0 <= i < group.len(),
    ensures
        least_prio(group) matches Some(e) && e.prio <= group[i].1.prio && exists|j: int|
            0 <= j < group.len() && (#[trigger] group[j]).1 == e,
    decreases group.len(),
{
    let g = group.drop_last();
    assert(group[group.len() - 1] == group.last());
    if g.len() > 0 {
        let k = if i < g.len() {
            i
        } else {
            0
        };
        lemma_least_prio_is_least(g, k);
        let b = least_prio(g)->0;
        let j = choose|j: int| 0 <= j < g.len() && (#[trigger] g[j]).1 == b;
        assert(group[j] == g[j]);
        if i < g.len() {
            assert(g[i] == group[i]);
        }
    }
}

/// Lookups go to a peer over a connection with the lowest priority number that it has.
pub proof fn lemma_lookups_use_the_best_connection<T>(v: RouterView<T>, key: PublicKey, i: int)
    requires
        get(v.peers, key) matches Some(group) && 0 <= i < group.len(),
    ensures
        ({
            let group = get(v.peers, key)->0;
            best_peer(v, key) matches Some(id) && exists|j: int|
                0 <= j < group.len() && (#[trigger] group[j]).1.id == id && group[j].1.prio
                    <= group[i].1.prio
        }),
{
    lemma_least_prio_is_least(get(v.peers, key)->0, i);
}

proof fn lemma_multicast_reaches<T>(v: RouterView<T>, keys: Seq<PublicKey>, l: PathLookupView, i: int)
    requires
        0 <= i < keys.len(),
        best_peer(v, keys[i]) is Some,
    ensures
        multicast(v, keys, l).contains(
            ActionView::SendPathLookup { peer_id: best_peer(v, keys[i])->0, lookup: l },
        ),
    decreases keys.len(),
{
    let a = ActionView::SendPathLookup { peer_id: best_peer(v, keys[i])->0, lookup: l };
    let all = multicast(v, keys, l);
    if i < keys.len() - 1 {
        let rest = multicast(v, keys.drop_last(), l);
        lemma_multicast_reaches(v, keys.drop_last(), l, i);
        assert(keys.drop_last()[i] == keys[i]);
        let j = choose|j: int| 0 <= j < rest.len() && rest[j] == a;
        assert(all[j] == a);
    } else {
        assert(all[all.len() - 1] == a);
    }
}

proof fn lemma_multicast_only<T>(v: RouterView<T>, keys: Seq<PublicKey>, l: PathLookupView, i: int)
    requires
        0 <= i < multicast(v, keys, l).len(),
    ensures
        exists|j: int|
            0 <= j < keys.len() && best_peer(v, #[trigger] keys[j]) is Some && multicast(v, keys, l)[i]
                == (ActionView::SendPathLookup { peer_id: best_peer(v, keys[j])->0, lookup: l }),
    decreases keys.len(),
{
    let d = keys.drop_last();
    let rest = multicast(v, d, l);
    if i < rest.len() {
        lemma_multicast_only(v, d, l, i);
        let j = choose|j: int|
            0 <= j < d.len() && best_peer(v, #[trigger] d[j]) is Some && rest[i] == (
            ActionView::SendPathLookup { peer_id: best_peer(v, d[j])->0, lookup: l });
        assert(keys[j] == d[j]);
        assert(multicast(v, keys, l)[i] == rest[i]);
    } else {
        assert(keys[keys.len() - 1] == keys.last());
    }
}

pub(crate) proof fn lemma_lookup_reaches<T: KeyTransform>(
    v: RouterView<T>,
    from: PublicKey,
    l: PathLookupView,
    c: Clock,
)
    ensures
        ({
            let sent = lookup_done(v, from, l, c).1;
            let bits = key_bits(v.transform.transformed(l.dest)@);
            forall|i: int|
                0 <= i < v.blooms.len() && (#[trigger] v.blooms[i]).1.on_tree && v.blooms[i].0 != from
                    && bits.subset_of(v.blooms[i].1.recv) ==> (best_peer(v, v.blooms[i].0) matches Some(
                    peer_id,
                ) ==> sent.contains(ActionView::SendPathLookup { peer_id, lookup: l }))
        }),
{
    let bits = key_bits(v.transform.transformed(l.dest)@);
    let keys = targets(v.blooms, from, bits);
    let first = multicast(v, keys, l);
    let sent = lookup_done(v, from, l, c).1;
    assert forall|m: int| 0 <= m < first.len() implies sent[m] == first[m] by {}
    assert forall|i: int|
        0 <= i < v.blooms.len() && (#[trigger] v.blooms[i]).1.on_tree && v.blooms[i].0 != from
            && bits.subset_of(v.blooms[i].1.recv) && best_peer(v, v.blooms[i].0) is Some implies sent.contains(
        ActionView::SendPathLookup { peer_id: best_peer(v, v.blooms[i].0)->0, lookup: l },
    ) by {
        let k = v.blooms[i].0;
        crate::blooms::lemma_targets_are_those_that_match(v.blooms, from, bits, k);
        let j = choose|j: int| 0 <= j < keys.len() && keys[j] == k;
        lemma_multicast_reaches(v, keys, l, j);
        let a = ActionView::SendPathLookup { peer_id: best_peer(v, k)->0, lookup: l };
        let m = choose|m: int| 0 <= m < first.len() && first[m] == a;
        assert(sent[m] == a);
    }
}

/// A lookup reaches everyone who may have the answer: each neighbour in the tree other than the one
/// it came from, in whose filter all bits of the transformed key are set, is sent the lookup as it
/// is, over a connection with the lowest priority number. Nobody else is.
pub proof fn lemma_lookup_goes_where_it_matches<T: KeyTransform>(
    v: RouterView<T>,
    from: PublicKey,
    l: PathLookupView,
    c: Clock,
)
    requires
        router_wf(v),
    ensures
        ({
            let sent = lookup_done(v, from, l, c).1;
            let bits = key_bits(v.transform.transformed(l.dest)@);
            &&& forall|i: int|
                0 <= i < v.blooms.len() && (#[trigger] v.blooms[i]).1.on_tree && v.blooms[i].0 != from
                    && bits.subset_of(v.blooms[i].1.recv) ==> (best_peer(v, v.blooms[i].0) matches Some(
                    peer_id,
                ) ==> sent.contains(ActionView::SendPathLookup { peer_id, lookup: l }))
            &&& forall|m: int|
                0 <= m < sent.len() ==> (#[trigger] sent[m] matches ActionView::SendPathLookup {
                    peer_id,
                    lookup,
                } ==> lookup == l && exists|i: int|
                    0 <= i < v.blooms.len() && (#[trigger] v.blooms[i]).1.on_tree && v.blooms[i].0 != from
                        && bits.subset_of(v.blooms[i].1.recv) && best_peer(v, v.blooms[i].0) == Some(
                        peer_id,
                    ))
        }),
{
    let bits = key_bits(v.transform.transformed(l.dest)@);
    let keys = targets(v.blooms, from, bits);
    let first = multicast(v, keys, l);
    let sent = lookup_done(v, from, l, c).1;
    lemma_lookup_reaches(v, from, l, c);
    assert forall|m: int| 0 <= m < first.len() implies sent[m] == first[m] by {}
    assert forall|m: int| 0 <= m < sent.len() implies (#[trigger] sent[m] matches ActionView::SendPathLookup {
        peer_id,
        lookup,
    } ==> lookup == l && exists|i: int|
        0 <= i < v.blooms.len() && (#[trigger] v.blooms[i]).1.on_tree && v.blooms[i].0 != from
            && bits.subset_of(v.blooms[i].1.recv) && best_peer(v, v.blooms[i].0) == Some(peer_id)) by {
        if m < first.len() {
            lemma_multicast_only(v, keys, l, m);
            let j = choose|j: int|
                0 <= j < keys.len() && best_peer(v, #[trigger] keys[j]) is Some && first[m] == (
                ActionView::SendPathLookup { peer_id: best_peer(v, keys[j])->0, lookup: l });
            assert(keys.contains(keys[j]));
            crate::blooms::lemma_targets_are_those_that_match(v.blooms, from, bits, keys[j]);
        } else {
            let own = own_path(v, c);
            let u = with_pathfinder(v, PathfinderView { info: own, ..v.pathfinder });
            let n = PathNotifyView {
                path: l.from,
                watermark: u64::MAX,
                source: v.key,
                dest: l.source,
                info: own,
            };
            let answer = own_notify_done(u, n, c.now).1;
            assert(sent[m] == answer[m - first.len()]);
        }
    }
}

/// The path that a lookup is answered with is the one to us as the tree has it now, with the present
/// second for its number, signed by us unless it is the one that was signed before.
pub proof fn lemma_own_path_is_the_present_one<T>(v: RouterView<T>, c: Clock)
    requires
        v.pathfinder.info.sig@ == ed25519_signature(
            v.secret,
            signed_path(v.pathfinder.info.seq, v.pathfinder.info.path),
        ),
    ensures
        own_path(v, c).path == coords(v.infos, v.key),
        own_path(v, c).seq == c.unix_secs,
        own_path(v, c).sig == array_of::<64>(
            ed25519_signature(v.secret, signed_path(c.unix_secs, coords(v.infos, v.key))),
        ),
{
    lemma_array_of(v.pathfinder.info.sig);
}

/// A lookup for us is answered, whoever it came from: where the way back has a next hop, our present
/// path goes out on it, addressed to the one that asked. One that is not for us is not answered.
pub proof fn lemma_lookup_for_us_is_answered<T: KeyTransform>(
    v: RouterView<T>,
    from: PublicKey,
    l: PathLookupView,
    c: Clock,
    peer_id: PeerId,
)
    requires
        next_hop(v, l.from, u64::MAX) == Some(peer_id),
    ensures
        ({
            let sent = lookup_done(v, from, l, c).1;
            let ours = v.transform.transformed(l.dest) == v.transform.transformed(v.key);
            &&& ours ==> exists|m: int|
                0 <= m < sent.len() && (#[trigger] sent[m] matches ActionView::SendPathNotify {
                    peer_id: p,
                    notify,
                } && p == peer_id && notify.source == v.key && notify.dest == l.source && notify.path
                    == l.from && notify.info == own_path(v, c) && notify.watermark == lowered(
                    v,
                    l.from,
                    u64::MAX,
                ))
            &&& !ours ==> forall|m: int|
                0 <= m < sent.len() ==> !(#[trigger] sent[m] is SendPathNotify)
        }),
{
    let bits = key_bits(v.transform.transformed(l.dest)@);
    let first = multicast(v, targets(v.blooms, from, bits), l);
    let sent = lookup_done(v, from, l, c).1;
    let ours = v.transform.transformed(l.dest) == v.transform.transformed(v.key);
    if ours {
        let own = own_path(v, c);
        let u = with_pathfinder(v, PathfinderView { info: own, ..v.pathfinder });
        lemma_next_hop_ignores_paths(v, u, l.from, u64::MAX);
        assert(sent[first.len() as int] is SendPathNotify);
    } else {
        assert forall|m: int| 0 <= m < sent.len() implies !(#[trigger] sent[m] is SendPathNotify) by {
            lemma_multicast_only(v, targets(v.blooms, from, bits), l, m);
        }
    }
}

proof fn lemma_closer_ignores_paths<T>(
    v: RouterView<T>,
    u: RouterView<T>,
    path: Seq<u64>,
    limit: u64,
    n: nat,
)
    requires
        same_but_paths(u, v),
    ensures
        crate::routing::closer(u, path, limit, n) == crate::routing::closer(v, path, limit, n),
    decreases n,
{
    if n > 0 {
        lemma_closer_ignores_paths(v, u, path, limit, (n - 1) as nat);
    }
}

proof fn lemma_best_ignores_paths<T>(
    v: RouterView<T>,
    u: RouterView<T>,
    path: Seq<u64>,
    s: Seq<PeerEntry>,
)
    requires
        same_but_paths(u, v),
    ensures
        crate::routing::best_of(u, path, s) == crate::routing::best_of(v, path, s),
    decreases s.len(),
{
    if s.len() > 0 {
        lemma_best_ignores_paths(v, u, path, s.drop_last());
    }
}

proof fn lemma_next_hop_ignores_paths<T>(
    v: RouterView<T>,
    u: RouterView<T>,
    path: Seq<u64>,
    watermark: u64,
)
    requires
        same_but_paths(u, v),
    ensures
        next_hop(u, path, watermark) == next_hop(v, path, watermark),
        lowered(u, path, watermark) == lowered(v, path, watermark),
{
    let d = crate::routing::dist_to(v, path, v.key);
    lemma_closer_ignores_paths(v, u, path, d, v.peers.len());
    lemma_best_ignores_paths(
        v,
        u,
        path,
        crate::routing::closer(v, path, d, v.peers.len()),
    );
}

/// A packet on its way: where there is a next hop it goes on as it is but for the watermark, and
/// nothing else happens; where there is none and it is for us, it is delivered as it is. Where
/// there is none and it is for another, its sender is told that the path broke, along the way that
/// the packet came, and the packet is neither sent on nor delivered.
pub proof fn lemma_packet_goes_on_or_is_delivered<T: KeyTransform>(
    v: RouterView<T>,
    tr: TrafficView,
    c: Clock,
)
    ensures
        ({
            let (u, sent) = routed(v, tr, c);
            match next_hop(v, tr.path, tr.watermark) {
                Some(peer_id) => u == v && sent.len() == 1 && (sent[0] matches ActionView::SendTraffic {
                    peer_id: p,
                    traffic: t,
                } && p == peer_id && t.payload == tr.payload && t.path == tr.path && t.from == tr.from
                    && t.source == tr.source && t.dest == tr.dest && t.watermark == lowered(
                    v,
                    tr.path,
                    tr.watermark,
                )),
                None => if tr.dest == v.key {
                    sent.len() == 1 && (sent[0] matches ActionView::DeliverTraffic { traffic: t } && t
                        == tr)
                } else {
                    match next_hop(v, tr.from, u64::MAX) {
                        Some(peer_id) => u == v && sent.len() == 1 && (
                        sent[0] matches ActionView::SendPathBroken { peer_id: p, broken: b } && p
                            == peer_id && b.path == tr.from && b.source == tr.source && b.dest
                            == tr.dest && b.watermark == lowered(v, tr.from, u64::MAX)),
                        None => tr.source != v.key ==> u == v && sent.len() == 0,
                    }
                },
            }
        }),
{
}

/// Word of a broken path goes on towards its sender as it is but for the watermark. With us it makes
/// the path count as broken, whether or not a new lookup is due.
pub proof fn lemma_broken_path_is_told<T: KeyTransform>(
    v: RouterView<T>,
    b: PathBrokenView,
    c: Clock,
)
    ensures
        ({
            let (u, sent) = broken_done(v, b, c);
            match next_hop(v, b.path, b.watermark) {
                Some(peer_id) => u == v && sent.len() == 1 && (sent[0] matches ActionView::SendPathBroken {
                    peer_id: p,
                    broken: t,
                } && p == peer_id && t.path == b.path && t.source == b.source && t.dest == b.dest
                    && t.watermark == lowered(v, b.path, b.watermark)),
                None => {
                    &&& b.source != v.key ==> u == v && sent.len() == 0
                    &&& b.source == v.key && b.dest != v.key && v.transform.transformed(b.dest)
                        != v.transform.transformed(v.key) && has_key(v.pathfinder.paths, b.dest) ==> (
                    get(u.pathfinder.paths, b.dest) matches Some(i) && i.broken)
                },
            }
        }),
{
    crate::pathfinder::lemma_changes_to_a_path(
        v.pathfinder,
        b.dest,
        arbitrary(),
        c.now,
        b.dest,
    );
    let p = path_broken(v.pathfinder, b.dest);
    if let Some(i) = get(p.paths, b.dest) {
        lemma_put(p.paths, b.dest, PathInfoView { req_time: c.now, ..i });
    }
}

/// A packet for a node to which a working path is known goes out along that path: to its next hop,
/// or to ourselves if there is none and it is for us. It carries our own coordinates for the way
/// back.
pub proof fn lemma_packet_follows_the_known_path<T: KeyTransform>(
    v: RouterView<T>,
    tr: TrafficView,
    c: Clock,
    i: PathInfoView,
    peer_id: PeerId,
)
    requires
        get(v.pathfinder.paths, tr.dest) == Some(i),
        !i.broken,
        next_hop(v, i.path, tr.watermark) == Some(peer_id),
    ensures
        ({
            let sent = sent_out(v, tr, c).1;
            sent.len() == 1 && (sent[0] matches ActionView::SendTraffic { peer_id: p, traffic: t } && p
                == peer_id && t.path == i.path && t.from == coords(v.infos, v.key) && t.payload
                == tr.payload && t.source == tr.source && t.dest == tr.dest)
        }),
{
    let t = TrafficView { path: i.path, from: coords(v.infos, v.key), ..tr };
    let u = with_pathfinder(
        v,
        if i.cached_traffic is None {
            path_cached(v.pathfinder, tr.dest, t)
        } else {
            v.pathfinder
        },
    );
    lemma_next_hop_ignores_paths(v, u, i.path, tr.watermark);
}

/// A packet for a node to which no working path is known waits for one, and is the one that waits.
/// Unless a lookup went out a short time ago, one goes out: to every neighbour in the tree whose
/// filter matches. Nothing is sent of the packet itself, where the node is another than ourselves.
pub proof fn lemma_packet_without_path_waits<T: KeyTransform>(
    v: RouterView<T>,
    tr: TrafficView,
    c: Clock,
)
    requires
        router_wf(v),
        get(v.pathfinder.paths, tr.dest) matches Some(i) ==> i.broken,
        v.transform.transformed(tr.dest) != v.transform.transformed(v.key),
    ensures
        ({
            let (u, sent) = sent_out(v, tr, c);
            let x = v.transform.transformed(tr.dest);
            let bits = key_bits(x@);
            let held = rumor_throttled(v.pathfinder, x, v.config.path_throttle, c.now)
                || lookup_throttled(v.pathfinder, tr.dest, v.config.path_throttle, c.now);
            &&& get(u.pathfinder.rumors, x) matches Some(r) && r.traffic == Some(tr)
            &&& forall|m: int|
                0 <= m < sent.len() ==> (#[trigger] sent[m] matches ActionView::SendPathLookup {
                    peer_id,
                    lookup,
                } && lookup.source == v.key && lookup.dest == tr.dest && lookup.from == coords(
                    v.infos,
                    v.key,
                ))
            &&& held ==> sent.len() == 0
            &&& !held ==> forall|i: int|
                0 <= i < v.blooms.len() && (#[trigger] v.blooms[i]).1.on_tree && v.blooms[i].0 != v.key
                    && bits.subset_of(v.blooms[i].1.recv) ==> (best_peer(v, v.blooms[i].0) matches Some(
                    id,
                ) ==> exists|m: int|
                    0 <= m < sent.len() && (#[trigger] sent[m] matches ActionView::SendPathLookup {
                        peer_id,
                        lookup,
                    } && peer_id == id))
        }),
{
    let x = v.transform.transformed(tr.dest);
    let (u, sent) = sent_out(v, tr, c);
    let p = rumor_cached(rumor_ensured(v.pathfinder, x, c.now), x, tr);
    crate::pathfinder::lemma_packet_waits_with_its_rumor(v.pathfinder, x, tr, c.now, x);
    assert(rumor_throttled(p, x, v.config.path_throttle, c.now) == rumor_throttled(
        v.pathfinder,
        x,
        v.config.path_throttle,
        c.now,
    ));
    let r = get(p.rumors, x)->0;
    let q = rumor_marked(p, x, Some(c.now));
    lemma_put(p.rumors, x, crate::pathfinder::PathRumorView { send_time: Some(c.now), ..r });
    let l = PathLookupView { source: v.key, dest: tr.dest, from: coords(v.infos, v.key) };
    let w = with_pathfinder(
        v,
        lookup_marked(q, tr.dest, c.now),
    );
    let keys = targets(v.blooms, v.key, key_bits(x@));
    if sent.len() > 0 {
        assert(sent == multicast(w, keys, l));
        assert forall|m: int| 0 <= m < sent.len() implies (#[trigger] sent[m] matches ActionView::SendPathLookup {
            peer_id,
            lookup,
        } && lookup == l) by {
            lemma_multicast_only(w, keys, l, m);
        }
    }
    if !rumor_throttled(p, x, v.config.path_throttle, c.now) && !lookup_throttled(
        v.pathfinder,
        tr.dest,
        v.config.path_throttle,
        c.now,
    ) {
        assert(sent == multicast(w, keys, l));
        assert forall|i: int|
            0 <= i < v.blooms.len() && (#[trigger] v.blooms[i]).1.on_tree && v.blooms[i].0 != v.key
                && key_bits(x@).subset_of(v.blooms[i].1.recv) && best_peer(v, v.blooms[i].0) is Some implies exists|
            m: int,
        |
            0 <= m < sent.len() && (#[trigger] sent[m] matches ActionView::SendPathLookup {
                peer_id,
                lookup,
            } && peer_id == best_peer(v, v.blooms[i].0)->0) by {
            let k = v.blooms[i].0;
            crate::blooms::lemma_targets_are_those_that_match(v.blooms, v.key, key_bits(x@), k);
            let j = choose|j: int| 0 <= j < keys.len() && keys[j] == k;
            lemma_multicast_reaches(w, keys, l, j);
            let a = ActionView::SendPathLookup { peer_id: best_peer(v, k)->0, lookup: l };
            let m = choose|m: int| 0 <= m < sent.len() && sent[m] == a;
            assert(sent[m] == a);
        }
    }
}

/// The packet that waits goes out when the path is found: a notification for us that is accepted,
/// with a valid signature, sends the packet that it sets free along the new path, and is reported.
/// The path is then the one that is used.
pub proof fn lemma_found_path_sends_the_packet<T: KeyTransform>(
    v: RouterView<T>,
    n: PathNotifyView,
    c: Clock,
    peer_id: PeerId,
)
    requires
        next_hop(v, n.path, n.watermark) is None,
        n.dest == v.key,
        ed25519_accepts(n.source@, signed_path(n.info.seq, n.info.path), n.info.sig@),
        ({
            let (p, accepted, freed) = notified(
                v.pathfinder,
                n.source,
                v.transform.transformed(n.source),
                n.info.seq,
                n.info.path,
                c.now,
            );
            accepted && (freed matches Some(t) ==> next_hop(v, n.info.path, t.watermark) == Some(peer_id))
        }),
    ensures
        ({
            let (u, sent) = notify_handled(v, n, c);
            let freed = notified(
                v.pathfinder,
                n.source,
                v.transform.transformed(n.source),
                n.info.seq,
                n.info.path,
                c.now,
            ).2;
            &&& sent.last() == (ActionView::PathNotifyCallback { key: n.source })
            &&& sent.len() == (if freed is Some { 2int } else { 1 })
            &&& freed matches Some(t) ==> (sent[0] matches ActionView::SendTraffic {
                peer_id: p,
                traffic: s,
            } && p == peer_id && s.path == n.info.path && s.payload == t.payload && s.dest == t.dest
                && s.source == t.source && s.from == coords(v.infos, v.key))
            &&& get(u.pathfinder.paths, n.source) matches Some(i) && i.path == n.info.path && !i.broken
        }),
{
    let (p, accepted, freed) = notified(
        v.pathfinder,
        n.source,
        v.transform.transformed(n.source),
        n.info.seq,
        n.info.path,
        c.now,
    );
    crate::pathfinder::lemma_accepted_is_given(
        v.pathfinder,
        n.source,
        v.transform.transformed(n.source),
        n.info.seq,
        n.info.path,
        c.now,
    );
    let u = with_pathfinder(v, p);
    if let Some(t) = freed {
        lemma_next_hop_ignores_paths(v, u, n.info.path, t.watermark);
    }
}

/// A notification on its way goes on as it is but for the watermark.
pub proof fn lemma_notification_goes_on<T: KeyTransform>(
    v: RouterView<T>,
    n: PathNotifyView,
    c: Clock,
    peer_id: PeerId,
)
    requires
        next_hop(v, n.path, n.watermark) == Some(peer_id),
    ensures
        ({
            let (u, sent) = notify_handled(v, n, c);
            u == v && sent.len() == 1 && (sent[0] matches ActionView::SendPathNotify {
                peer_id: p,
                notify,
            } && p == peer_id && notify.path == n.path && notify.source == n.source && notify.dest
                == n.dest && notify.info == n.info && notify.watermark == lowered(
                v,
                n.path,
                n.watermark,
            ))
        }),
{
}

/// Among the connections of a peer with the lowest priority number the first one is used: every
/// earlier one has a higher number, and no later one a lower.
pub proof fn lemma_first_of_equals_is_used<T>(v: RouterView<T>, key: PublicKey)
    requires
        get(v.peers, key) matches Some(group) && group.len() > 0,
    ensures
        ({
            let group = get(v.peers, key)->0;
            best_peer(v, key) matches Some(id) && exists|j: int|
                {
                    &&& 0 <= j < group.len()
                    &&& (#[trigger] group[j]).1.id == id
                    &&& forall|k: int|
                        0 <= k < j ==> group[j].1.prio < (#[trigger] group[k]).1.prio
                    &&& forall|k: int|
                        j < k < group.len() ==> group[j].1.prio <= (#[trigger] group[k]).1.prio
                }
        }),
{
    lemma_least_prio_is_first(get(v.peers, key)->0);
}

proof fn lemma_least_prio_is_first(group: Seq<(PeerId, PeerEntry)>)
    requires
        group.len() > 0,
    ensures
        least_prio(group) matches Some(e) && exists|j: int|
            {
                &&& 0 <= j < group.len()
                &&& (#[trigger] group[j]).1 == e
                &&& forall|k: int| 0 <= k < j ==> e.prio < (#[trigger] group[k]).1.prio
                &&& forall|k: int| j < k < group.len() ==> e.prio <= (#[trigger] group[k]).1.prio
            },
    decreases group.len(),
{
    let g = group.drop_last();
    let n = group.len() - 1;
    assert(group[n] == group.last());
    if g.len() > 0 {
        lemma_least_prio_is_first(g);
        let b = least_prio(g)->0;
        let j = choose|j: int|
            {
                &&& 0 <= j < g.len()
                &&& (#[trigger] g[j]).1 == b
                &&& forall|k: int| 0 <= k < j ==> b.prio < (#[trigger] g[k]).1.prio
                &&& forall|k: int| j < k < g.len() ==> b.prio <= (#[trigger] g[k]).1.prio
            };
        let e = least_prio(group)->0;
        let at = if group.last().1.prio < b.prio {
            n
        } else {
            j
        };
        assert(group[j] == g[j]);
        assert(group[at].1 == e);
        assert forall|k: int| 0 <= k < at implies e.prio < (#[trigger] group[k]).1.prio by {
            assert(group[k] == g[k]);
        }
        assert forall|k: int| at < k < group.len() implies e.prio <= (
        #[trigger] group[k]).1.prio by {
            if k < n {
                assert(group[k] == g[k]);
            }
        }
    } else {
        assert(least_prio(group) == Some(group[0].1));
    }
}

/// Each node that is to be asked is asked once, in its turn: what is sent for nodes, and for further
/// nodes behind them, is what is sent for the first and then what is sent for the others. One node is
/// sent one lookup, or none where there is no connection to it.
pub proof fn lemma_each_is_asked_once<T>(
    v: RouterView<T>,
    a: Seq<PublicKey>,
    b: Seq<PublicKey>,
    l: PathLookupView,
)
    ensures
        multicast(v, a + b, l) == multicast(v, a, l) + multicast(v, b, l),
        a.len() == 1 ==> match best_peer(v, a[0]) {
            Some(peer_id) => multicast(v, a, l) == seq![
                ActionView::SendPathLookup { peer_id, lookup: l },
            ],
            None => multicast(v, a, l).len() == 0,
        },
    decreases b.len(),
{
    if a.len() == 1 {
        reveal_with_fuel(multicast, 2);
        if let Some(peer_id) = best_peer(v, a[0]) {
            assert(multicast(v, a, l) =~= seq![ActionView::SendPathLookup { peer_id, lookup: l }]);
        }
    }
    if b.len() == 0 {
        assert(a + b =~= a);
        assert(multicast(v, a, l) + multicast(v, b, l) =~= multicast(v, a, l));
    } else {
        lemma_each_is_asked_once(v, a, b.drop_last(), l);
        assert((a + b).drop_last() =~= a + b.drop_last());
        assert((a + b).last() == b.last());
        assert(multicast(v, a + b, l) =~= multicast(v, a, l) + multicast(v, b, l));
    }
}

} // verus!
