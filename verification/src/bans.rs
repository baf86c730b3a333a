//! Hosts that are shut out for a while after failed handshakes.
use vstd::prelude::*;
use crate::nets::Ip;
use crate::table::{
    get, has_key, kept, lemma_find, lemma_kept, lemma_put, put, KeyTable, TableKey,
};
use crate::traffic::elapsed;

verus! {

/// How many failures shut a host out.
pub const MAX_FAILED_ATTEMPTS: u64 = 3;

/// How long a host is shut out, in nanoseconds.
pub const BAN_DURATION: u64 = 900_000_000_000;

/// How long a failure counts, in nanoseconds.
pub const FAILED_ATTEMPT_WINDOW: u64 = 60_000_000_000;

/// How long a host is remembered after it is let in again, in nanoseconds.
pub const BAN_MEMORY: u64 = 60_000_000_000;

impl TableKey for Ip {
    fn same(&self, other: &Self) -> (b: bool) {
        Ip::same(self, other)
    }
}

/// What is known of a host that failed.
#[derive(Clone, Copy, Debug, PartialEq, Eq)]
pub struct FailedAttempt {
    pub count: u64,
    pub last_attempt: u64,
    pub banned_until: Option<u64>,
}

/// The hosts that failed.
pub struct BanList(pub KeyTable<Ip, FailedAttempt>);

impl View for BanList {
    type V = Seq<(Ip, FailedAttempt)>;

    open spec fn view(&self) -> Seq<(Ip, FailedAttempt)> {
        self.0@
    }
}

/// Whether a host is shut out.
pub open spec fn banned(l: Seq<(Ip, FailedAttempt)>, ip: Ip, now: u64) -> bool {
    match get(l, ip) {
        Some(e) => match e.banned_until {
            Some(t) => now < t,
            None => false,
        },
        None => false,
    }
}

/// The list after a host was looked up: it starts anew where its time is over.
pub open spec fn looked_up(l: Seq<(Ip, FailedAttempt)>, ip: Ip, now: u64) -> Seq<
    (Ip, FailedAttempt),
> {
    match get(l, ip) {
        Some(e) => match e.banned_until {
            Some(t) => if now < t {
                l
            } else {
                put(l, ip, FailedAttempt { count: 0, banned_until: None, ..e })
            },
            None => l,
        },
        None => l,
    }
}

/// A sum that stops at the largest number.
pub open spec fn capped_sum(a: u64, b: u64) -> u64 {
    if a + b > u64::MAX {
        u64::MAX
    } else {
        (a + b) as u64
    }
}

/// What is known of a host after one more failure: failures count from anew after a window
/// without one, and enough of them shut it out.
pub open spec fn failed(e: Option<FailedAttempt>, now: u64) -> FailedAttempt {
    let before = match e {
        Some(e) => e,
        None => FailedAttempt { count: 0, last_attempt: now, banned_until: None },
    };
    let count = capped_sum(
        if elapsed(before.last_attempt, now) > FAILED_ATTEMPT_WINDOW {
            0
        } else {
            before.count
        },
        1,
    );
    FailedAttempt {
        count,
        last_attempt: now,
        banned_until: if count >= MAX_FAILED_ATTEMPTS {
            Some(capped_sum(now, BAN_DURATION))
        } else {
            before.banned_until
        },
    }
}

/// Whether a host is still worth remembering.
pub open spec fn worth_keeping(now: u64) -> spec_fn(FailedAttempt) -> bool {
    |e: FailedAttempt|
        match e.banned_until {
            Some(t) => now < capped_sum(t, BAN_MEMORY),
            None => elapsed(e.last_attempt, now) < 2 * FAILED_ATTEMPT_WINDOW,
        }
}

impl BanList {
    /// The invariant: no host occurs twice.
    pub open spec fn wf(&self) -> bool {
        self.0.wf()
    }

    /// A list without hosts.
    pub fn new() -> (r: Self)
        ensures
            r.wf(),
            r@ == Seq::<(Ip, FailedAttempt)>::empty(),
    {
        BanList(KeyTable::new())
    }

    /// Whether a host is shut out.
    pub fn is_banned(&mut self, ip: Ip, now: u64) -> (r: bool)
        requires
            old(self).wf(),
        ensures
            final(self).wf(),
            r == banned(old(self)@, ip, now),
            final(self)@ == looked_up(old(self)@, ip, now),
    {
        let entry = match self.0.get(&ip) {
            Some(e) => *e,
            None => {
                return false;
            },
        };
        match entry.banned_until {
            None => false,
            Some(t) => {
                if now < t {
                    true
                } else {
                    self.0.insert(
                        ip,
                        FailedAttempt {
                            count: 0,
                            last_attempt: entry.last_attempt,
                            banned_until: None,
                        },
                    );
                    false
                }
            },
        }
    }

    /// Takes note of a failure. Says whether the host is now shut out.
    pub fn record_failure(&mut self, ip: Ip, now: u64) -> (r: bool)
        requires
            old(self).wf(),
        ensures
            final(self).wf(),
            final(self)@ == put(old(self)@, ip, failed(get(old(self)@, ip), now)),
            r == (failed(get(old(self)@, ip), now).count >= MAX_FAILED_ATTEMPTS),
    {
        let mut entry = match self.0.get(&ip) {
            Some(e) => *e,
            None => FailedAttempt { count: 0, last_attempt: now, banned_until: None },
        };
        if now.saturating_sub(entry.last_attempt) > FAILED_ATTEMPT_WINDOW {
            entry.count = 0;
        }
        entry.count = entry.count.saturating_add(1);
        entry.last_attempt = now;
        let shut_out: bool = entry.count >= MAX_FAILED_ATTEMPTS;
        if shut_out {
            entry.banned_until = Some(now.saturating_add(BAN_DURATION));
        }
        self.0.insert(ip, entry);
        shut_out
    }

    /// Forgets hosts that are not worth remembering.
    pub fn cleanup(&mut self, now: u64)
        requires
            old(self).wf(),
        ensures
            final(self).wf(),
            final(self)@ == kept(old(self)@, worth_keeping(now)),
    {
        let ghost t0 = self.0@;
        let ghost p = worth_keeping(now);
        let mut i: usize = 0;
        let ghost mut done: int = 0;
        assert(self.0@ =~= kept(t0.take(0), p) + t0.skip(0));
        while i < self.0.len()
            invariant
                0 <= done <= t0.len(),
                i == kept(t0.take(done), p).len(),
                self.0@ == kept(t0.take(done), p) + t0.skip(done),
                self.wf(),
                p == worth_keeping(now),
            decreases t0.len() - done,
        {
            proof {
                assert(done < t0.len());
                assert(t0.take(done + 1).drop_last() =~= t0.take(done));
                assert(self.0@[i as int] == t0[done]);
            }
            let e = *self.0.value_at(i);
            let keep: bool = match e.banned_until {
                Some(t) => now < t.saturating_add(BAN_MEMORY),
                None => now.saturating_sub(e.last_attempt) < 2 * FAILED_ATTEMPT_WINDOW,
            };
            if keep {
                i = i + 1;
            } else {
                let _ = self.0.remove_at(i);
            }
            assert(self.0@ =~= kept(t0.take(done + 1), p) + t0.skip(done + 1));
            proof {
                done = done + 1;
            }
        }
        proof {
            assert(t0.take(done) =~= t0);
            assert(self.0@ =~= kept(t0, p));
        }
    }
}

// ---------------------------------------------------------------------------
// Laws
// ---------------------------------------------------------------------------

/// The list after failures of a host at the given times.
pub open spec fn failures(l: Seq<(Ip, FailedAttempt)>, ip: Ip, times: Seq<u64>) -> Seq<
    (Ip, FailedAttempt),
>
    decreases times.len(),
{
    if times.len() == 0 {
        l
    } else {
        let before = failures(l, ip, times.drop_last());
        put(before, ip, failed(get(before, ip), times.last()))
    }
}

/// A host that was not known is let in after two failures, and shut out after a third within the
/// window for as long as a ban lasts.
pub proof fn lemma_third_failure_bans(
    l: Seq<(Ip, FailedAttempt)>,
    ip: Ip,
    t1: u64,
    t2: u64,
    t3: u64,
    now: u64,
)
    requires
        !has_key(l, ip),
        t1 <= t2 <= t1 + FAILED_ATTEMPT_WINDOW,
        t2 <= t3 <= t2 + FAILED_ATTEMPT_WINDOW,
        t3 + BAN_DURATION <= u64::MAX,
    ensures
        !banned(failures(l, ip, seq![t1, t2]), ip, now),
        banned(failures(l, ip, seq![t1, t2, t3]), ip, now) == (now < t3 + BAN_DURATION),
{
    lemma_find(l, ip);
    let e1 = failed(None, t1);
    let l1 = put(l, ip, e1);
    lemma_put(l, ip, e1);
    let e2 = failed(Some(e1), t2);
    let l2 = put(l1, ip, e2);
    lemma_put(l1, ip, e2);
    let e3 = failed(Some(e2), t3);
    lemma_put(l2, ip, e3);
    assert(seq![t1].drop_last() =~= Seq::<u64>::empty());
    assert(seq![t1, t2].drop_last() =~= seq![t1]);
    assert(seq![t1, t2, t3].drop_last() =~= seq![t1, t2]);
    assert(failures(l, ip, Seq::<u64>::empty()) == l);
    assert(failures(l, ip, seq![t1]) == l1);
    assert(failures(l, ip, seq![t1, t2]) == l2);
}

/// Failures that are further apart than the window do not add up.
pub proof fn lemma_rare_failures_do_not_ban(e: FailedAttempt, now: u64)
    requires
        elapsed(e.last_attempt, now) > FAILED_ATTEMPT_WINDOW,
    ensures
        failed(Some(e), now).count == 1,
        failed(Some(e), now).banned_until == e.banned_until,
{
}

/// A host that is shut out is never forgotten.
pub proof fn lemma_cleanup_keeps_bans(l: Seq<(Ip, FailedAttempt)>, ip: Ip, now: u64)
    requires
        crate::table::distinct(l),
        banned(l, ip, now),
    ensures
        banned(kept(l, worth_keeping(now)), ip, now),
{
    lemma_kept(l, worth_keeping(now));
    assert(get(kept(l, worth_keeping(now)), ip) == get(l, ip));
}

/// A failure counts one more, or starts at one after a minute without any. The third shuts the host out
/// for a quarter of an hour from then on, whatever was before.
pub proof fn lemma_failures_are_counted(e: FailedAttempt, now: u64)
    requires
        e.last_attempt <= now,
        now <= u64::MAX - 900_000_000_000,
        e.count < u64::MAX,
    ensures
        ({
            let f = failed(Some(e), now);
            let n: int = if now - e.last_attempt > 60_000_000_000 {
                1
            } else {
                e.count + 1
            };
            &&& f.count == n
            &&& f.last_attempt == now
            &&& n >= 3 ==> f.banned_until == Some((now + 900_000_000_000) as u64)
            &&& n < 3 ==> f.banned_until == e.banned_until
        }),
        failed(None, now) == (FailedAttempt { count: 1, last_attempt: now, banned_until: None }),
{
}

/// A host whose time is over is let in, and its failures count from anew; looking up one that is shut
/// out, or that never was, changes nothing. Other hosts are never touched.
pub proof fn lemma_time_served_starts_anew(l: Seq<(Ip, FailedAttempt)>, ip: Ip, now: u64, other: Ip)
    ensures
        get(l, ip) matches Some(e) ==> (e.banned_until matches Some(t) ==> {
            &&& now < t ==> banned(l, ip, now) && looked_up(l, ip, now) == l
            &&& now >= t ==> !banned(l, ip, now) && (get(looked_up(l, ip, now), ip) matches Some(f)
                && f.count == 0 && f.banned_until is None)
        }),
        (get(l, ip) matches Some(e) ==> e.banned_until is None) ==> looked_up(l, ip, now) == l && !banned(
            l,
            ip,
            now,
        ),
        other != ip ==> get(looked_up(l, ip, now), other) == get(l, other),
{
    if let Some(e) = get(l, ip) {
        let f = FailedAttempt { count: 0, banned_until: None, ..e };
        lemma_put(l, ip, f);
        assert(get(put(l, ip, f), other) == (if other == ip { Some(f) } else { get(l, other) }));
        assert(get(put(l, ip, f), ip) == Some(f));
    }
}

/// A host is forgotten a minute after it was let in again, or two minutes after a failure that did not
/// shut it out; until then everything that is known of it is kept.
pub proof fn lemma_what_is_forgotten(l: Seq<(Ip, FailedAttempt)>, ip: Ip, now: u64)
    requires
        crate::table::distinct(l),
    ensures
        get(kept(l, worth_keeping(now)), ip) == (match get(l, ip) {
            None => None,
            Some(e) => {
                let until: int = match e.banned_until {
                    Some(t) => if t + 60_000_000_000 <= u64::MAX {
                        t + 60_000_000_000
                    } else {
                        u64::MAX as int
                    },
                    None => e.last_attempt + 120_000_000_000,
                };
                if now < until {
                    Some(e)
                } else {
                    None
                }
            },
        }),
{
    lemma_kept(l, worth_keeping(now));
}

} // verus!
