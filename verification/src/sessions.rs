//! The sessions of a node: opening them, resetting them, and what passes through them.
use vstd::prelude::*;
use crate::boxes::{
    curve25519_public, curve_public_of, curve_secret_of, random_secret, BoxKeys, CurvePrivateKey,
};
use crate::bytes::{key_less, to_vec, PublicKey};
use crate::discovery::Clock;
use crate::session::{
    hears, init_message, opened_init, readable, received, renonced, send_ready, sent, session_new,
    session_wf, traffic_message, updated, RecvAction, SessionInfo, SessionInit, SESSION_TIMEOUT,
    SESSION_TRAFFIC_OVERHEAD, SESSION_TYPE_ACK, SESSION_TYPE_INIT, SESSION_TYPE_TRAFFIC,
};
use crate::table::{
    del, distinct, get, has_key, kept, lemma_del, lemma_find, lemma_kept, lemma_mapped_del,
    lemma_mapped_find, lemma_mapped_kept, lemma_mapped_put, lemma_put, mapped, put, KeyTable,
};
use crate::traffic::elapsed;
use crate::types::Error;

verus! {

/// What waits for a session to be opened: the last payload written, and the handshake message
/// that was sent for it with the private keys that belong to it.
pub struct SessionBuffer {
    pub data: Option<Vec<u8>>,
    pub init: SessionInit,
    pub current_priv: CurvePrivateKey,
    pub next_priv: CurvePrivateKey,
    pub created: u64,
}

/// The view of a buffer.
#[verifier::ext_equal]
pub struct BufferView {
    pub data: Option<Seq<u8>>,
    pub init: SessionInit,
    pub current_priv: CurvePrivateKey,
    pub next_priv: CurvePrivateKey,
    pub created: u64,
}

/// The view of an optional payload.
pub open spec fn data_view(d: Option<Vec<u8>>) -> Option<Seq<u8>> {
    match d {
        Some(v) => Some(v@),
        None => None,
    }
}

impl View for SessionBuffer {
    type V = BufferView;

    open spec fn view(&self) -> BufferView {
        BufferView {
            data: data_view(self.data),
            init: self.init,
            current_priv: self.current_priv,
            next_priv: self.next_priv,
            created: self.created,
        }
    }
}

/// What the session manager asks for.
pub enum OutAction {
    /// Send a message over the network.
    SendToInner { dest: PublicKey, data: Vec<u8> },
    /// Hand a payload to the user.
    Deliver { source: PublicKey, data: Vec<u8> },
}

/// The view of an action.
#[verifier::ext_equal]
pub enum OutView {
    SendToInner { dest: PublicKey, data: Seq<u8> },
    Deliver { source: PublicKey, data: Seq<u8> },
}

impl View for OutAction {
    type V = OutView;

    open spec fn view(&self) -> OutView {
        match *self {
            OutAction::SendToInner { dest, data } => OutView::SendToInner { dest, data: data@ },
            OutAction::Deliver { source, data } => OutView::Deliver { source, data: data@ },
        }
    }
}

/// The views of actions.
pub open spec fn out_views(a: Seq<OutAction>) -> Seq<OutView> {
    a.map_values(|x: OutAction| x@)
}

/// The private keys that one step may use.
#[derive(Clone, Copy)]
pub struct Draws {
    pub recv: CurvePrivateKey,
    pub send: CurvePrivateKey,
    pub next: CurvePrivateKey,
    pub fresh: CurvePrivateKey,
    pub spare: CurvePrivateKey,
    pub ephemeral: CurvePrivateKey,
}

/// Who we are: the node's secret key, and the private key for boxes made of it.
#[derive(Clone, Copy)]
pub struct Identity {
    pub secret: [u8; 32],
    pub curve: CurvePrivateKey,
}

/// The sessions and buffers by remote node.
pub struct ConcurrentSessionManager {
    pub sessions: KeyTable<PublicKey, SessionInfo>,
    pub buffers: KeyTable<PublicKey, SessionBuffer>,
}

/// The view of the manager.
#[verifier::ext_equal]
pub struct ManagerView {
    pub sessions: Seq<(PublicKey, SessionInfo)>,
    pub buffers: Seq<(PublicKey, BufferView)>,
}

/// The function from buffers to their views.
pub open spec fn buffer_view() -> spec_fn(SessionBuffer) -> BufferView {
    |b: SessionBuffer| b@
}

impl View for ConcurrentSessionManager {
    type V = ManagerView;

    open spec fn view(&self) -> ManagerView {
        ManagerView {
            sessions: self.sessions@,
            buffers: mapped(self.buffers@, buffer_view()),
        }
    }
}

/// A buffer's handshake message announces the keys that are kept with it.
pub open spec fn buffer_wf(b: BufferView) -> bool {
    &&& b.init.current == curve25519_public(b.current_priv)
    &&& b.init.next == curve25519_public(b.next_priv)
}

/// The invariant: no node occurs twice, and all key pairs are ones.
pub open spec fn manager_wf(m: ManagerView) -> bool {
    &&& distinct(m.sessions)
    &&& distinct(m.buffers)
    &&& forall|k: PublicKey|
        (#[trigger] get(m.sessions, k)) is Some ==> session_wf(get(m.sessions, k)->0)
    &&& forall|k: PublicKey|
        (#[trigger] get(m.buffers, k)) is Some ==> buffer_wf(get(m.buffers, k)->0)
}

/// A manager and the actions that it asks for.
pub type SessionOutcome = (ManagerView, Seq<OutView>);

/// The handshake content that a session sends now.
pub open spec fn offer(s: SessionInfo, clock: Clock) -> SessionInit {
    SessionInit {
        current: s.send_keys.public,
        next: s.next_keys.public,
        key_seq: s.local_key_seq,
        seq: clock.unix_secs,
    }
}

/// The sending of a handshake message: nothing where the node's key is no point of the curve.
pub open spec fn init_out(
    i: SessionInit,
    me: Identity,
    dest: PublicKey,
    msg_type: u8,
    ephemeral: CurvePrivateKey,
) -> Seq<OutView> {
    match curve_public_of(dest) {
        None => Seq::empty(),
        Some(to_box) => seq![
            OutView::SendToInner {
                dest,
                data: init_message(i, me.secret, to_box, msg_type, ephemeral),
            },
        ],
    }
}

/// A message that carries a payload arrives: the payload is delivered where the session reads
/// it, and a handshake message is sent where the session is out of step. Without a session the
/// message is dropped.
pub open spec fn traffic_in(
    m: ManagerView,
    from: PublicKey,
    data: Seq<u8>,
    me: Identity,
    clock: Clock,
    d: Draws,
) -> SessionOutcome {
    match get(m.sessions, from) {
        None => (m, Seq::empty()),
        Some(s) => {
            let (t, r) = received(s, data, d.fresh, clock.now);
            let n = ManagerView { sessions: put(m.sessions, from, t), ..m };
            match r {
                Ok(payload) => (n, seq![OutView::Deliver { source: from, data: payload }]),
                Err(RecvAction::SendInit) => (
                    n,
                    init_out(offer(t, clock), me, from, SESSION_TYPE_INIT, d.ephemeral),
                ),
                Err(RecvAction::Drop) => (n, Seq::empty()),
            }
        },
    }
}

/// A buffer for a node for which none waits yet.
pub open spec fn buffer_new(clock: Clock, d: Draws) -> BufferView {
    BufferView {
        data: None,
        init: SessionInit {
            current: curve25519_public(d.send),
            next: curve25519_public(d.next),
            key_seq: 0,
            seq: clock.unix_secs,
        },
        current_priv: d.send,
        next_priv: d.next,
        created: clock.now,
    }
}

/// A payload is written: through the session, or else it replaces the one that waits for the
/// session, and the handshake message is sent.
pub open spec fn written_to(
    m: ManagerView,
    dest: PublicKey,
    msg: Seq<u8>,
    me: Identity,
    clock: Clock,
    d: Draws,
) -> SessionOutcome {
    match get(m.sessions, dest) {
        Some(s) => (
            ManagerView {
                sessions: put(m.sessions, dest, sent(s, d.fresh, msg.len(), clock.now)),
                ..m
            },
            seq![
                OutView::SendToInner { dest, data: traffic_message(send_ready(s, d.fresh), msg) },
            ],
        ),
        None => {
            let b = match get(m.buffers, dest) {
                Some(b) => b,
                None => buffer_new(clock, d),
            };
            (
                ManagerView {
                    buffers: put(m.buffers, dest, BufferView { data: Some(msg), ..b }),
                    ..m
                },
                init_out(b.init, me, dest, SESSION_TYPE_INIT, d.ephemeral),
            )
        },
    }
}

/// The session that a handshake message opens. Where one was sent for a waiting payload, the
/// session has the keys that it announced.
pub open spec fn session_from(
    m: ManagerView,
    from: PublicKey,
    init: SessionInit,
    clock: Clock,
    d: Draws,
) -> SessionInfo {
    let s = session_new(init, d.recv, d.send, d.next, clock.now);
    match get(m.buffers, from) {
        None => s,
        Some(b) => renonced(
            SessionInfo {
                send_keys: BoxKeys { public: b.init.current, secret: b.current_priv },
                next_keys: BoxKeys { public: b.init.next, secret: b.next_priv },
                ..s
            },
            0,
            0,
        ),
    }
}

/// The payload that waits for a node.
pub open spec fn waiting(m: ManagerView, from: PublicKey) -> Option<Seq<u8>> {
    match get(m.buffers, from) {
        None => None,
        Some(b) => b.data,
    }
}

/// A session is opened: the waiting payload is sent through it, and the buffer is used up.
pub open spec fn session_opened(
    m: ManagerView,
    from: PublicKey,
    s: SessionInfo,
    clock: Clock,
    d: Draws,
) -> SessionOutcome {
    let buffers = del(m.buffers, from);
    match waiting(m, from) {
        None => (ManagerView { sessions: put(m.sessions, from, s), buffers }, Seq::empty()),
        Some(msg) => (
            ManagerView {
                sessions: put(m.sessions, from, sent(s, d.spare, msg.len(), clock.now)),
                buffers,
            },
            seq![
                OutView::SendToInner {
                    dest: from,
                    data: traffic_message(send_ready(s, d.spare), msg),
                },
            ],
        ),
    }
}

/// A handshake message arrives. One that is no newer than the last is ignored. It resets the
/// session or opens one, and it is answered.
pub open spec fn init_in(
    m: ManagerView,
    from: PublicKey,
    init: SessionInit,
    me: Identity,
    clock: Clock,
    d: Draws,
) -> SessionOutcome {
    match get(m.sessions, from) {
        Some(s) => if init.seq <= s.seq {
            (m, Seq::empty())
        } else {
            let t = updated(s, init, d.fresh, clock.now);
            (
                ManagerView { sessions: put(m.sessions, from, t), ..m },
                init_out(offer(t, clock), me, from, SESSION_TYPE_ACK, d.ephemeral),
            )
        },
        None => {
            let s = session_from(m, from, init, clock, d);
            let (n, a) = session_opened(m, from, s, clock, d);
            (n, a + init_out(offer(s, clock), me, from, SESSION_TYPE_ACK, d.ephemeral))
        },
    }
}

/// The answer to a handshake message arrives: it is taken up where it is newer than the last.
pub open spec fn ack_in(
    m: ManagerView,
    from: PublicKey,
    ack: SessionInit,
    clock: Clock,
    d: Draws,
) -> SessionOutcome {
    match get(m.sessions, from) {
        Some(s) => if ack.seq > s.seq {
            (
                ManagerView {
                    sessions: put(m.sessions, from, updated(s, ack, d.fresh, clock.now)),
                    ..m
                },
                Seq::empty(),
            )
        } else {
            (m, Seq::empty())
        },
        None => {
            let s = session_from(m, from, ack, clock, d);
            let t = if ack.seq > s.seq {
                updated(s, ack, d.fresh, clock.now)
            } else {
                s
            };
            session_opened(m, from, t, clock, d)
        },
    }
}

/// A message from a node arrives.
pub open spec fn data_in(
    m: ManagerView,
    from: PublicKey,
    data: Seq<u8>,
    me: Identity,
    clock: Clock,
    d: Draws,
) -> SessionOutcome {
    if data.len() == 0 {
        (m, Seq::empty())
    } else if data[0] == SESSION_TYPE_INIT {
        match opened_init(data, me.curve, from) {
            Ok(init) => init_in(m, from, init, me, clock, d),
            Err(_) => (m, Seq::empty()),
        }
    } else if data[0] == SESSION_TYPE_ACK {
        match opened_init(data, me.curve, from) {
            Ok(ack) => ack_in(m, from, ack, clock, d),
            Err(_) => (m, Seq::empty()),
        }
    } else if data[0] == SESSION_TYPE_TRAFFIC {
        traffic_in(m, from, data, me, clock, d)
    } else {
        (m, Seq::empty())
    }
}

/// The session that a message opens, before anything is written through it.
pub open spec fn opening(
    m: ManagerView,
    from: PublicKey,
    data: Seq<u8>,
    me: Identity,
    clock: Clock,
    d: Draws,
) -> Option<SessionInfo> {
    if has_key(m.sessions, from) || data.len() == 0 {
        None
    } else {
        match opened_init(data, me.curve, from) {
            Err(_) => None,
            Ok(init) => {
                let s = session_from(m, from, init, clock, d);
                if data[0] == SESSION_TYPE_INIT {
                    Some(s)
                } else if data[0] == SESSION_TYPE_ACK {
                    Some(
                        if init.seq > s.seq {
                            updated(s, init, d.fresh, clock.now)
                        } else {
                            s
                        },
                    )
                } else {
                    None
                }
            },
        }
    }
}

/// Whether a session is not idle for too long.
pub open spec fn session_live(now: u64) -> spec_fn(SessionInfo) -> bool {
    |s: SessionInfo| elapsed(s.last_activity, now) <= SESSION_TIMEOUT
}

/// Whether a buffer is not too old.
pub open spec fn buffer_live(now: u64) -> spec_fn(BufferView) -> bool {
    |b: BufferView| elapsed(b.created, now) < SESSION_TIMEOUT
}

/// The manager without what is too old.
pub open spec fn expired(m: ManagerView, now: u64) -> ManagerView {
    ManagerView {
        sessions: kept(m.sessions, session_live(now)),
        buffers: kept(m.buffers, buffer_live(now)),
    }
}

proof fn lemma_session_put(m: ManagerView, k: PublicKey, s: SessionInfo)
    requires
        manager_wf(m),
        session_wf(s),
    ensures
        manager_wf(ManagerView { sessions: put(m.sessions, k, s), ..m }),
{
    lemma_put(m.sessions, k, s);
}

proof fn lemma_buffer_put(m: ManagerView, k: PublicKey, b: BufferView)
    requires
        manager_wf(m),
        buffer_wf(b),
    ensures
        manager_wf(ManagerView { buffers: put(m.buffers, k, b), ..m }),
{
    lemma_put(m.buffers, k, b);
}

proof fn lemma_buffer_del(m: ManagerView, k: PublicKey)
    requires
        manager_wf(m),
    ensures
        manager_wf(ManagerView { buffers: del(m.buffers, k), ..m }),
{
    lemma_del(m.buffers, k);
}

/// Makes the action that sends a handshake message.
fn send_init(
    i: &SessionInit,
    me: &Identity,
    dest: &PublicKey,
    msg_type: u8,
    ephemeral: CurvePrivateKey,
    out: &mut Vec<OutAction>,
)
    ensures
        out_views(final(out)@) == out_views(old(out)@) + init_out(
            *i,
            *me,
            *dest,
            msg_type,
            ephemeral,
        ),
{
    if let Ok(data) = i.encrypt_with(&me.secret, dest, msg_type, ephemeral) {
        out.push(OutAction::SendToInner { dest: *dest, data });
    }
    assert(out_views(out@) =~= out_views(old(out)@) + init_out(
        *i,
        *me,
        *dest,
        msg_type,
        ephemeral,
    ));
}

fn offer_of(s: &SessionInfo, clock: Clock) -> (r: SessionInit)
    ensures
        r == offer(*s, clock),
{
    SessionInit::new(&s.send_keys.public, &s.next_keys.public, s.local_key_seq, clock.unix_secs)
}

impl ConcurrentSessionManager {
    /// The invariant.
    pub open spec fn wf(&self) -> bool {
        &&& manager_wf(self@)
        &&& self.sessions.wf()
        &&& self.buffers.wf()
    }

    /// A manager without sessions.
    pub fn new() -> (r: Self)
        ensures
            r.wf(),
            r@ == (ManagerView { sessions: Seq::empty(), buffers: Seq::empty() }),
    {
        let r = ConcurrentSessionManager { sessions: KeyTable::new(), buffers: KeyTable::new() };
        assert(r@.buffers =~= Seq::empty());
        r
    }

    fn set_session(&mut self, k: PublicKey, s: SessionInfo)
        requires
            old(self).wf(),
            session_wf(s),
        ensures
            final(self).wf(),
            final(self)@ == (ManagerView { sessions: put(old(self)@.sessions, k, s), ..old(self)@ }),
    {
        proof {
            lemma_session_put(self@, k, s);
        }
        self.sessions.insert(k, s);
    }

    fn set_buffer(&mut self, k: PublicKey, b: SessionBuffer)
        requires
            old(self).wf(),
            buffer_wf(b@),
        ensures
            final(self).wf(),
            final(self)@ == (ManagerView { buffers: put(old(self)@.buffers, k, b@), ..old(self)@ }),
    {
        proof {
            lemma_buffer_put(self@, k, b@);
            lemma_mapped_put(self.buffers@, buffer_view(), k, b);
        }
        self.buffers.insert(k, b);
    }

    fn take_buffer(&mut self, k: &PublicKey) -> (r: Option<SessionBuffer>)
        requires
            old(self).wf(),
        ensures
            final(self).wf(),
            final(self)@ == (ManagerView { buffers: del(old(self)@.buffers, *k), ..old(self)@ }),
            match r {
                Some(b) => get(old(self)@.buffers, *k) == Some(b@),
                None => get(old(self)@.buffers, *k) is None,
            },
    {
        proof {
            lemma_buffer_del(self@, *k);
            lemma_mapped_del(self.buffers@, buffer_view(), *k);
            lemma_mapped_find(self.buffers@, buffer_view(), *k);
            lemma_find(self.buffers@, *k);
        }
        self.buffers.remove(k)
    }

    fn session(&self, k: &PublicKey) -> (r: Option<SessionInfo>)
        requires
            self.wf(),
        ensures
            r == get(self@.sessions, *k),
            r is Some ==> session_wf(r->0),
    {
        match self.sessions.get(k) {
            Some(s) => Some(*s),
            None => None,
        }
    }

    /// Handles a message from a node, with the private keys given.
    pub fn handle_data_with(
        &mut self,
        from: &PublicKey,
        data: &[u8],
        me: &Identity,
        clock: Clock,
        draws: Draws,
    ) -> (r: Vec<OutAction>)
        requires
            old(self).wf(),
        ensures
            final(self).wf(),
            (final(self)@, out_views(r@)) == data_in(old(self)@, *from, data@, *me, clock, draws),
            (opening(old(self)@, *from, data@, *me, clock, draws) is Some && waiting(
                old(self)@,
                *from,
            ) is Some) ==> readable(
                send_ready(
                    opening(old(self)@, *from, data@, *me, clock, draws)->0,
                    draws.spare,
                ),
                waiting(old(self)@, *from)->0,
            ),
    {
        proof {
            lemma_find(self@.sessions, *from);
        }
        let none: Vec<OutAction> = Vec::new();
        assert(out_views(none@) =~= Seq::empty());
        if data.len() == 0 {
            return none;
        }
        let msg_type: u8 = data[0];
        if msg_type == SESSION_TYPE_INIT {
            match SessionInit::decrypt(data, &me.curve, from) {
                Ok(init) => self.handle_init(from, &init, me, clock, draws),
                Err(_) => none,
            }
        } else if msg_type == SESSION_TYPE_ACK {
            match SessionInit::decrypt(data, &me.curve, from) {
                Ok(ack) => self.handle_ack(from, &ack, clock, draws),
                Err(_) => none,
            }
        } else if msg_type == SESSION_TYPE_TRAFFIC {
            self.handle_traffic(from, data, me, clock, draws)
        } else {
            none
        }
    }

    fn handle_traffic(
        &mut self,
        from: &PublicKey,
        data: &[u8],
        me: &Identity,
        clock: Clock,
        draws: Draws,
    ) -> (r: Vec<OutAction>)
        requires
            old(self).wf(),
        ensures
            final(self).wf(),
            (final(self)@, out_views(r@)) == traffic_in(
                old(self)@,
                *from,
                data@,
                *me,
                clock,
                draws,
            ),
    {
        let mut out: Vec<OutAction> = Vec::new();
        assert(out_views(out@) =~= Seq::empty());
        let mut info = match self.session(from) {
            Some(s) => s,
            None => {
                return out;
            },
        };
        let read = info.do_recv_with(data, draws.fresh, clock.now);
        self.set_session(*from, info);
        match read {
            Ok(payload) => {
                let ghost p = payload@;
                out.push(OutAction::Deliver { source: *from, data: payload });
                assert(out_views(out@) =~= seq![OutView::Deliver { source: *from, data: p }]);
            },
            Err(RecvAction::SendInit) => {
                let init = offer_of(&info, clock);
                send_init(&init, me, from, SESSION_TYPE_INIT, draws.ephemeral, &mut out);
                assert(out_views(out@) =~= init_out(
                    init,
                    *me,
                    *from,
                    SESSION_TYPE_INIT,
                    draws.ephemeral,
                ));
            },
            Err(RecvAction::Drop) => {},
        }
        out
    }

    /// Writes a payload to a node, with the private keys given.
    pub fn write_to_with(
        &mut self,
        dest: &PublicKey,
        msg: &[u8],
        me: &Identity,
        clock: Clock,
        draws: Draws,
    ) -> (r: Vec<OutAction>)
        requires
            old(self).wf(),
        ensures
            final(self).wf(),
            (final(self)@, out_views(r@)) == written_to(
                old(self)@,
                *dest,
                msg@,
                *me,
                clock,
                draws,
            ),
            get(old(self)@.sessions, *dest) is Some ==> readable(
                send_ready(get(old(self)@.sessions, *dest)->0, draws.fresh),
                msg@,
            ),
    {
        match self.session(dest) {
            Some(s) => {
                let mut info = s;
                let mut out: Vec<OutAction> = Vec::new();
                let written = info.do_send_with(msg, draws.fresh, clock.now);
                self.set_session(*dest, info);
                if let Ok(data) = written {
                    let ghost d = data@;
                    out.push(OutAction::SendToInner { dest: *dest, data });
                    assert(out_views(out@) =~= seq![OutView::SendToInner { dest: *dest, data: d }]);
                }
                out
            },
            None => self.buffer_and_init(dest, msg, me, clock, draws),
        }
    }

    fn buffer_and_init(
        &mut self,
        dest: &PublicKey,
        msg: &[u8],
        me: &Identity,
        clock: Clock,
        draws: Draws,
    ) -> (r: Vec<OutAction>)
        requires
            old(self).wf(),
            get(old(self)@.sessions, *dest) is None,
        ensures
            final(self).wf(),
            (final(self)@, out_views(r@)) == written_to(
                old(self)@,
                *dest,
                msg@,
                *me,
                clock,
                draws,
            ),
    {
        proof {
            lemma_mapped_find(self.buffers@, buffer_view(), *dest);
            lemma_find(self.buffers@, *dest);
        }
        let (init, current_priv, next_priv, created): (
            SessionInit,
            CurvePrivateKey,
            CurvePrivateKey,
            u64,
        ) = match self.buffers.get(dest) {
            Some(b) => (b.init, b.current_priv, b.next_priv, b.created),
            None => {
                let current = crate::boxes::box_keys(draws.send);
                let next = crate::boxes::box_keys(draws.next);
                (
                    SessionInit::new(&current.public, &next.public, 0, clock.unix_secs),
                    draws.send,
                    draws.next,
                    clock.now,
                )
            },
        };
        let data = to_vec(msg);
        let buffer = SessionBuffer { data: Some(data), init, current_priv, next_priv, created };
        self.set_buffer(*dest, buffer);
        let mut out: Vec<OutAction> = Vec::new();
        assert(out_views(out@) =~= Seq::empty());
        send_init(&init, me, dest, SESSION_TYPE_INIT, draws.ephemeral, &mut out);
        assert(out_views(out@) =~= init_out(
            init,
            *me,
            *dest,
            SESSION_TYPE_INIT,
            draws.ephemeral,
        ));
        out
    }

    fn create_session_from_init(
        &mut self,
        from: &PublicKey,
        init: &SessionInit,
        clock: Clock,
        draws: Draws,
    ) -> (r: (Option<Vec<u8>>, SessionInfo))
        requires
            old(self).wf(),
        ensures
            final(self).wf(),
            final(self)@ == (ManagerView { buffers: del(old(self)@.buffers, *from), ..old(self)@ }),
            data_view(r.0) == waiting(old(self)@, *from),
            r.1 == session_from(old(self)@, *from, *init, clock, draws),
            session_wf(r.1),
    {
        let mut info = SessionInfo::new_with(init, draws.recv, draws.send, draws.next, clock.now);
        match self.take_buffer(from) {
            Some(b) => {
                info.send_keys = BoxKeys { public: b.init.current, secret: b.current_priv };
                info.next_keys = BoxKeys { public: b.init.next, secret: b.next_priv };
                info.next_send_nonce = 0;
                info.next_recv_nonce = 0;
                info.recv_nonce = 0;
                info.send_nonce = 0;
                (b.data, info)
            },
            None => (None, info),
        }
    }

    /// Files a new session, and writes the waiting payload through it.
    fn open_session(
        &mut self,
        from: &PublicKey,
        session: SessionInfo,
        buffered: Option<Vec<u8>>,
        clock: Clock,
        draws: Draws,
        Ghost(before): Ghost<ManagerView>,
    ) -> (out: Vec<OutAction>)
        requires
            old(self).wf(),
            session_wf(session),
            old(self)@ == (ManagerView { buffers: del(before.buffers, *from), ..before }),
            data_view(buffered) == waiting(before, *from),
        ensures
            final(self).wf(),
            (final(self)@, out_views(out@)) == session_opened(
                before,
                *from,
                session,
                clock,
                draws,
            ),
            waiting(before, *from) is Some ==> readable(
                send_ready(session, draws.spare),
                waiting(before, *from)->0,
            ),
    {
        let mut info = session;
        let mut out: Vec<OutAction> = Vec::new();
        assert(out_views(out@) =~= Seq::empty());
        if let Some(payload) = buffered {
            if let Ok(data) = info.do_send_with(payload.as_slice(), draws.spare, clock.now) {
                let ghost d = data@;
                out.push(OutAction::SendToInner { dest: *from, data });
                assert(out_views(out@) =~= seq![OutView::SendToInner { dest: *from, data: d }]);
            }
        }
        self.set_session(*from, info);
        out
    }

    fn handle_init(
        &mut self,
        from: &PublicKey,
        init: &SessionInit,
        me: &Identity,
        clock: Clock,
        draws: Draws,
    ) -> (r: Vec<OutAction>)
        requires
            old(self).wf(),
        ensures
            final(self).wf(),
            (final(self)@, out_views(r@)) == init_in(
                old(self)@,
                *from,
                *init,
                *me,
                clock,
                draws,
            ),
            (get(old(self)@.sessions, *from) is None && waiting(old(self)@, *from) is Some)
                ==> readable(
                send_ready(
                    session_from(old(self)@, *from, *init, clock, draws),
                    draws.spare,
                ),
                waiting(old(self)@, *from)->0,
            ),
    {
        let mut out: Vec<OutAction> = Vec::new();
        assert(out_views(out@) =~= Seq::empty());
        let ghost before = self@;
        match self.session(from) {
            Some(s) => {
                let mut info = s;
                if init.seq <= info.seq {
                    return out;
                }
                info.handle_update_with(init, draws.fresh, clock.now);
                self.set_session(*from, info);
                let answer = offer_of(&info, clock);
                send_init(&answer, me, from, SESSION_TYPE_ACK, draws.ephemeral, &mut out);
                assert(out_views(out@) =~= init_out(
                    answer,
                    *me,
                    *from,
                    SESSION_TYPE_ACK,
                    draws.ephemeral,
                ));
                out
            },
            None => {
                let (buffered, info) = self.create_session_from_init(from, init, clock, draws);
                let answer = offer_of(&info, clock);
                let mut sends = self.open_session(
                    from,
                    info,
                    buffered,
                    clock,
                    draws,
                    Ghost(before),
                );
                send_init(&answer, me, from, SESSION_TYPE_ACK, draws.ephemeral, &mut sends);
                sends
            },
        }
    }

    fn handle_ack(
        &mut self,
        from: &PublicKey,
        ack: &SessionInit,
        clock: Clock,
        draws: Draws,
    ) -> (r: Vec<OutAction>)
        requires
            old(self).wf(),
        ensures
            final(self).wf(),
            (final(self)@, out_views(r@)) == ack_in(old(self)@, *from, *ack, clock, draws),
            (get(old(self)@.sessions, *from) is None && waiting(old(self)@, *from) is Some)
                ==> readable(
                send_ready(
                    if ack.seq > session_from(old(self)@, *from, *ack, clock, draws).seq {
                        updated(
                            session_from(old(self)@, *from, *ack, clock, draws),
                            *ack,
                            draws.fresh,
                            clock.now,
                        )
                    } else {
                        session_from(old(self)@, *from, *ack, clock, draws)
                    },
                    draws.spare,
                ),
                waiting(old(self)@, *from)->0,
            ),
    {
        let out: Vec<OutAction> = Vec::new();
        assert(out_views(out@) =~= Seq::empty());
        let ghost before = self@;
        match self.session(from) {
            Some(s) => {
                let mut info = s;
                if ack.seq > info.seq {
                    info.handle_update_with(ack, draws.fresh, clock.now);
                    self.set_session(*from, info);
                }
                out
            },
            None => {
                let (buffered, mut info) = self.create_session_from_init(from, ack, clock, draws);
                if ack.seq > info.seq {
                    info.handle_update_with(ack, draws.fresh, clock.now);
                }
                self.open_session(from, info, buffered, clock, draws, Ghost(before))
            },
        }
    }
}

impl Draws {
    /// Private keys drawn at random.
    pub fn random() -> Self {
        Draws {
            recv: random_secret(),
            send: random_secret(),
            next: random_secret(),
            fresh: random_secret(),
            spare: random_secret(),
            ephemeral: random_secret(),
        }
    }
}

impl Identity {
    /// The identity of a node's secret key.
    pub fn new(secret: [u8; 32]) -> (r: Self)
        ensures
            r == (Identity { secret, curve: curve_secret_of(secret) }),
    {
        Identity { secret, curve: crate::boxes::ed25519_private_to_curve25519(&secret) }
    }
}

/// What is shown of a session.
#[derive(Clone, Copy, Debug, PartialEq, Eq)]
pub struct SessionEntry {
    pub key: PublicKey,
    pub uptime_ns: u64,
    pub bytes_sent: u64,
    pub bytes_recvd: u64,
}

/// The entry of a session.
pub open spec fn session_entry(e: (PublicKey, SessionInfo), now: u64) -> SessionEntry {
    SessionEntry {
        key: e.0,
        uptime_ns: elapsed(e.1.since, now),
        bytes_sent: e.1.tx,
        bytes_recvd: e.1.rx,
    }
}

/// The entries of sessions.
pub open spec fn session_entries(m: ManagerView, now: u64) -> Seq<SessionEntry> {
    m.sessions.map_values(|e: (PublicKey, SessionInfo)| session_entry(e, now))
}

/// Entries in the order of their keys.
pub open spec fn by_key(s: Seq<SessionEntry>) -> bool {
    forall|i: int, j: int|
        0 <= i < j < s.len() ==> !crate::bytes::lex_less(
            (#[trigger] s[j]).key@,
            (#[trigger] s[i]).key@,
        )
}

/// Puts an entry in its place.
fn insert_by_key(v: &mut Vec<SessionEntry>, e: SessionEntry)
    requires
        by_key(old(v)@),
    ensures
        by_key(final(v)@),
        final(v)@.to_multiset() == old(v)@.to_multiset().insert(e),
        final(v)@.len() == old(v)@.len() + 1,
{
    let mut at: usize = v.len();
    while at > 0 && key_less(&e.key, &v[at - 1].key)
        invariant
            at <= v@.len(),
            v@ == old(v)@,
            forall|j: int| at <= j < v@.len() ==> crate::bytes::lex_less(e.key@, (#[trigger] v@[j]).key@),
        decreases at,
    {
        at = at - 1;
    }
    let ghost before = v@;
    proof {
        assert forall|i: int| 0 <= i < at implies !crate::bytes::lex_less(
            e.key@,
            (#[trigger] before[i]).key@,
        ) by {
            if crate::bytes::lex_less(e.key@, before[i].key@) && i < at - 1 {
                assert(!crate::bytes::lex_less(before[at - 1].key@, before[i].key@));
                crate::bytes::lemma_lex_total(e.key@, before[at - 1].key@);
                crate::bytes::lemma_lex_transitive(
                    before[at - 1].key@,
                    e.key@,
                    before[i].key@,
                );
            }
        }
        assert forall|j: int| at <= j < before.len() implies !crate::bytes::lex_less(
            (#[trigger] before[j]).key@,
            e.key@,
        ) by {
            if crate::bytes::lex_less(before[j].key@, e.key@) {
                crate::bytes::lemma_lex_transitive(e.key@, before[j].key@, e.key@);
                crate::bytes::lemma_lex_irreflexive(e.key@);
            }
        }
        vstd::seq_lib::to_multiset_insert(before, at as int, e);
    }
    v.insert(at, e);
}

impl ConcurrentSessionManager {
    /// Handles a message from a node. Private keys are drawn at random. A payload that was waiting
    /// for the session that the message opens is read by whoever hears it.
    pub fn handle_data(&mut self, from: &PublicKey, data: &[u8], me: &Identity, clock: Clock) -> (r:
        Vec<OutAction>)
        requires
            old(self).wf(),
        ensures
            final(self).wf(),
            exists|d: Draws|
                (final(self)@, out_views(r@)) == #[trigger] data_in(
                    old(self)@,
                    *from,
                    data@,
                    *me,
                    clock,
                    d,
                ) && ((opening(old(self)@, *from, data@, *me, clock, d) is Some && waiting(
                    old(self)@,
                    *from,
                ) is Some) ==> readable(
                    send_ready(opening(old(self)@, *from, data@, *me, clock, d)->0, d.spare),
                    waiting(old(self)@, *from)->0,
                )),
    {
        let d = Draws::random();
        self.handle_data_with(from, data, me, clock, d)
    }

    /// Writes a payload to a node. Private keys are drawn at random. Whoever hears the session that
    /// it goes through reads it.
    pub fn write_to(&mut self, dest: &PublicKey, msg: &[u8], me: &Identity, clock: Clock) -> (r: Vec<
        OutAction,
    >)
        requires
            old(self).wf(),
        ensures
            final(self).wf(),
            exists|d: Draws|
                (final(self)@, out_views(r@)) == #[trigger] written_to(
                    old(self)@,
                    *dest,
                    msg@,
                    *me,
                    clock,
                    d,
                ) && (get(old(self)@.sessions, *dest) is Some ==> readable(
                    send_ready(get(old(self)@.sessions, *dest)->0, d.fresh),
                    msg@,
                )),
    {
        let d = Draws::random();
        self.write_to_with(dest, msg, me, clock, d)
    }

    /// Forgets sessions that are idle for too long and buffers that are too old.
    pub fn cleanup_expired(&mut self, now: u64)
        requires
            old(self).wf(),
        ensures
            final(self).wf(),
            final(self)@ == expired(old(self)@, now),
    {
        let ghost s0 = self.sessions@;
        let ghost b0 = self.buffers@;
        let ghost fs = session_live(now);
        let ghost fb = |b: SessionBuffer| buffer_live(now)(b@);
        let mut i: usize = 0;
        let ghost mut done: int = 0;
        assert(self.sessions@ =~= kept(s0.take(0), fs) + s0.skip(0));
        while i < self.sessions.len()
            invariant
                0 <= done <= s0.len(),
                i == kept(s0.take(done), fs).len(),
                self.sessions@ == kept(s0.take(done), fs) + s0.skip(done),
                self.sessions.wf(),
                self.buffers@ == b0,
                self.buffers.wf(),
                fs == session_live(now),
            decreases s0.len() - done,
        {
            proof {
                assert(done < s0.len());
                assert(s0.take(done + 1).drop_last() =~= s0.take(done));
                assert(self.sessions@[i as int] == s0[done]);
            }
            if self.sessions.value_at(i).is_expired(now) {
                let _ = self.sessions.remove_at(i);
                assert(self.sessions@ =~= kept(s0.take(done + 1), fs) + s0.skip(done + 1));
            } else {
                i = i + 1;
                assert(self.sessions@ =~= kept(s0.take(done + 1), fs) + s0.skip(done + 1));
            }
            proof {
                done = done + 1;
            }
        }
        proof {
            assert(done == s0.len());
            assert(s0.take(done) =~= s0);
            assert(self.sessions@ =~= kept(s0, fs));
        }
        let mut i: usize = 0;
        let ghost mut done: int = 0;
        assert(self.buffers@ =~= kept(b0.take(0), fb) + b0.skip(0));
        while i < self.buffers.len()
            invariant
                0 <= done <= b0.len(),
                i == kept(b0.take(done), fb).len(),
                self.buffers@ == kept(b0.take(done), fb) + b0.skip(done),
                self.sessions.wf(),
                self.sessions@ == kept(s0, fs),
                self.buffers.wf(),
                fb == (|b: SessionBuffer| buffer_live(now)(b@)),
            decreases b0.len() - done,
        {
            proof {
                assert(done < b0.len());
                assert(b0.take(done + 1).drop_last() =~= b0.take(done));
                assert(self.buffers@[i as int] == b0[done]);
            }
            let age: u64 = now.saturating_sub(self.buffers.value_at(i).created);
            if age >= SESSION_TIMEOUT {
                let _ = self.buffers.remove_at(i);
                assert(self.buffers@ =~= kept(b0.take(done + 1), fb) + b0.skip(done + 1));
            } else {
                i = i + 1;
                assert(self.buffers@ =~= kept(b0.take(done + 1), fb) + b0.skip(done + 1));
            }
            proof {
                done = done + 1;
            }
        }
        proof {
            assert(done == b0.len());
            assert(b0.take(done) =~= b0);
            assert(self.buffers@ =~= kept(b0, fb));
            let m = old(self)@;
            lemma_mapped_kept(b0, buffer_view(), buffer_live(now));
            assert(fb =~= (|v: SessionBuffer| buffer_live(now)(buffer_view()(v))));
            assert(self@ == expired(m, now));
            lemma_kept(m.sessions, session_live(now));
            lemma_kept(m.buffers, buffer_live(now));
        }
    }

    /// The sessions in the order of their keys.
    pub fn get_sessions(&self, now: u64) -> (r: Vec<SessionEntry>)
        ensures
            by_key(r@),
            r@.to_multiset() == session_entries(self@, now).to_multiset(),
    {
        let mut r: Vec<SessionEntry> = Vec::new();
        let mut i: usize = 0;
        let ghost all = session_entries(self@, now);
        proof {
            all.to_multiset_ensures();
            r@.to_multiset_ensures();
            assert(all.take(0) =~= Seq::empty());
            assert(r@ =~= Seq::empty());
        }
        while i < self.sessions.len()
            invariant
                i <= self.sessions@.len(),
                all == session_entries(self@, now),
                by_key(r@),
                r@.to_multiset() == all.take(i as int).to_multiset(),
            decreases self.sessions@.len() - i,
        {
            let s = self.sessions.value_at(i);
            let e = SessionEntry {
                key: self.sessions.key_at(i),
                uptime_ns: now.saturating_sub(s.since),
                bytes_sent: s.tx,
                bytes_recvd: s.rx,
            };
            assert(e == all[i as int]);
            proof {
                assert(all.take(i + 1) =~= all.take(i as int).push(e));
                all.take(i as int).to_multiset_ensures();
            }
            insert_by_key(&mut r, e);
            i = i + 1;
        }
        assert(all.take(i as int) =~= all);
        r
    }
}

/// Whether a payload is written through a session at all.
pub fn accept_write(closed: bool, inner_mtu: u64, buf: &[u8]) -> (r: Result<(), Error>)
    ensures
        r == (if closed {
            Err::<(), Error>(Error::Closed)
        } else if buf@.len() + SESSION_TRAFFIC_OVERHEAD > inner_mtu && buf@.len() > 0 {
            Err(Error::OversizedMessage)
        } else {
            Ok(())
        }),
{
    if closed {
        Err(Error::Closed)
    } else if buf.len() as u64 > session_mtu(inner_mtu) {
        Err(Error::OversizedMessage)
    } else {
        Ok(())
    }
}

/// The longest payload that can be written through a session.
pub fn session_mtu(inner_mtu: u64) -> (r: u64)
    ensures
        r == if inner_mtu >= SESSION_TRAFFIC_OVERHEAD {
            (inner_mtu - SESSION_TRAFFIC_OVERHEAD) as u64
        } else {
            0
        },
{
    inner_mtu.saturating_sub(SESSION_TRAFFIC_OVERHEAD)
}

// ---------------------------------------------------------------------------
// Laws
// ---------------------------------------------------------------------------

/// A handshake message that is no newer than the last one taken up changes nothing and is not
/// answered.
pub proof fn lemma_stale_init_ignored(
    m: ManagerView,
    from: PublicKey,
    init: SessionInit,
    me: Identity,
    clock: Clock,
    d: Draws,
)
    requires
        get(m.sessions, from) matches Some(s) && init.seq <= s.seq,
    ensures
        init_in(m, from, init, me, clock, d) == (m, Seq::<OutView>::empty()),
        ack_in(m, from, init, clock, d) == (m, Seq::<OutView>::empty()),
{
}

/// A handshake message that was taken up once is not taken up again.
pub proof fn lemma_init_taken_once(
    m: ManagerView,
    from: PublicKey,
    init: SessionInit,
    me: Identity,
    clock: Clock,
    d: Draws,
    later: Clock,
    e: Draws,
)
    requires
        has_key(m.sessions, from),
    ensures
        ({
            let n = init_in(m, from, init, me, clock, d).0;
            init_in(n, from, init, me, later, e) == (n, Seq::<OutView>::empty())
        }),
{
    lemma_find(m.sessions, from);
    match get(m.sessions, from) {
        Some(s) => {
            lemma_put(m.sessions, from, updated(s, init, d.fresh, clock.now));
        },
        None => {},
    }
}

/// Whatever is delivered comes from the node that sent the message, through a session with it.
pub proof fn lemma_delivered_from_session(
    m: ManagerView,
    from: PublicKey,
    data: Seq<u8>,
    me: Identity,
    clock: Clock,
    d: Draws,
    i: int,
)
    requires
        0 <= i < data_in(m, from, data, me, clock, d).1.len(),
        data_in(m, from, data, me, clock, d).1[i] is Deliver,
    ensures
        get(m.sessions, from) matches Some(s) && data_in(m, from, data, me, clock, d).1
            == seq![
            OutView::Deliver { source: from, data: received(s, data, d.fresh, clock.now).1->Ok_0 },
        ],
{
}

/// Only the session and the buffer of the node that sent a message change.
pub proof fn lemma_others_untouched(
    m: ManagerView,
    from: PublicKey,
    data: Seq<u8>,
    me: Identity,
    clock: Clock,
    d: Draws,
    other: PublicKey,
)
    requires
        manager_wf(m),
        other != from,
    ensures
        get(data_in(m, from, data, me, clock, d).0.sessions, other) == get(m.sessions, other),
        get(data_in(m, from, data, me, clock, d).0.buffers, other) == get(m.buffers, other),
{
    let n = data_in(m, from, data, me, clock, d).0;
    assert forall|s: SessionInfo| get(#[trigger] put(m.sessions, from, s), other) == get(
        m.sessions,
        other,
    ) by {
        lemma_put(m.sessions, from, s);
    }
    lemma_del(m.buffers, from);
}

/// The handshake works: where a node writes a payload to one with which neither has a session,
/// the other node takes up the handshake message and the first takes up its answer, the first
/// node sends one message, and the other node's session hears it.
pub proof fn lemma_handshake_delivers(
    a: ManagerView,
    b: ManagerView,
    a_key: PublicKey,
    b_key: PublicKey,
    me_a: Identity,
    me_b: Identity,
    msg: Seq<u8>,
    t: (Clock, Clock, Clock),
    d: (Draws, Draws, Draws),
)
    requires
        manager_wf(a),
        manager_wf(b),
        get(a.sessions, b_key) is None,
        get(a.buffers, b_key) is None,
        get(b.sessions, a_key) is None,
        get(b.buffers, a_key) is None,
        t.1.unix_secs > 0,
    ensures
        ({
            let a1 = written_to(a, b_key, msg, me_a, t.0, d.0).0;
            let init = get(a1.buffers, b_key)->0.init;
            let b1 = init_in(b, a_key, init, me_b, t.1, d.1).0;
            let ack = offer(get(b1.sessions, a_key)->0, t.1);
            let (a2, out) = ack_in(a1, b_key, ack, t.2, d.2);
            exists|writer: SessionInfo|
                out == seq![
                    OutView::SendToInner {
                        dest: b_key,
                        data: #[trigger] traffic_message(writer, msg),
                    },
                ] && hears(get(b1.sessions, a_key)->0, writer)
        }),
{
    let a1 = written_to(a, b_key, msg, me_a, t.0, d.0).0;
    let buf = BufferView { data: Some(msg), ..buffer_new(t.0, d.0) };
    lemma_put(a.buffers, b_key, buf);
    let init = buf.init;
    let s = session_from(b, a_key, init, t.1, d.1);
    lemma_put(b.sessions, a_key, s);
    let b1 = init_in(b, a_key, init, me_b, t.1, d.1).0;
    assert(get(b1.sessions, a_key) == Some(s));
    let ack = offer(s, t.1);
    let s1 = session_from(a1, b_key, ack, t.2, d.2);
    let s2 = updated(s1, ack, d.2.fresh, t.2.now);
    assert(ack.seq > s1.seq);
    let writer = send_ready(s2, d.2.spare);
    assert(hears(s, writer));
    let out = ack_in(a1, b_key, ack, t.2, d.2).1;
    assert(out == seq![OutView::SendToInner { dest: b_key, data: traffic_message(writer, msg) }]);
}

/// A payload for a node with which there is a session is sent to that node at once, in one message that
/// everyone reads who hears the session. Without a session it waits, in place of one that waited
/// before, and a handshake is sent if the node's key is one; a handshake that is under way goes on
/// with the same keys.
pub proof fn lemma_payload_is_sent_or_waits(
    m: ManagerView,
    dest: PublicKey,
    msg: Seq<u8>,
    me: Identity,
    clock: Clock,
    d: Draws,
    other: PublicKey,
)
    requires
        manager_wf(m),
    ensures
        ({
            let (n, out) = written_to(m, dest, msg, me, clock, d);
            match get(m.sessions, dest) {
                Some(s) => {
                    &&& out.len() == 1
                    &&& out[0] matches OutView::SendToInner { dest: to, data } && to == dest && data
                        == traffic_message(send_ready(s, d.fresh), msg)
                    &&& get(n.sessions, dest) matches Some(t) && t.tx == s.tx.wrapping_add(
                        msg.len() as u64,
                    )
                    &&& n.buffers == m.buffers
                    &&& other != dest ==> get(n.sessions, other) == get(m.sessions, other)
                },
                None => {
                    &&& waiting(n, dest) == Some(msg)
                    &&& n.sessions == m.sessions
                    &&& get(m.buffers, dest) matches Some(b) ==> get(n.buffers, dest)->0.init == b.init
                        && get(n.buffers, dest)->0.current_priv == b.current_priv && get(
                        n.buffers,
                        dest,
                    )->0.created == b.created
                    &&& other != dest ==> get(n.buffers, other) == get(m.buffers, other)
                    &&& curve_public_of(dest) is Some ==> out.len() == 1 && (
                    out[0] matches OutView::SendToInner { dest: to, data } && to == dest && data
                        == init_message(
                        get(n.buffers, dest)->0.init,
                        me.secret,
                        curve_public_of(dest)->0,
                        1,
                        d.ephemeral,
                    ))
                    &&& curve_public_of(dest) is None ==> out.len() == 0
                },
            }
        }),
{
    match get(m.sessions, dest) {
        Some(s) => {
            let t = sent(s, d.fresh, msg.len(), clock.now);
            lemma_put(m.sessions, dest, t);
            assert(get(put(m.sessions, dest, t), other) == (if other == dest {
                Some(t)
            } else {
                get(m.sessions, other)
            }));
        },
        None => {
            let b = match get(m.buffers, dest) {
                Some(b) => b,
                None => buffer_new(clock, d),
            };
            let w = BufferView { data: Some(msg), ..b };
            lemma_put(m.buffers, dest, w);
            assert(get(put(m.buffers, dest, w), other) == (if other == dest {
                Some(w)
            } else {
                get(m.buffers, other)
            }));
        },
    }
}

/// A handshake from a node with which there is no session opens one with the keys that it carries, and
/// with our keys that a handshake of ours announced, if one is under way. It is answered, the payload
/// that waits is sent through the session, and then none waits.
pub proof fn lemma_handshake_opens_a_session(
    m: ManagerView,
    from: PublicKey,
    init: SessionInit,
    me: Identity,
    clock: Clock,
    d: Draws,
)
    requires
        manager_wf(m),
        get(m.sessions, from) is None,
        curve_public_of(from) is Some,
    ensures
        ({
            let (n, out) = init_in(m, from, init, me, clock, d);
            let s = get(n.sessions, from)->0;
            &&& get(n.sessions, from) is Some
            &&& s.current == init.current && s.next == init.next
            &&& get(m.buffers, from) matches Some(b) ==> (waiting(m, from) is None ==> s.send_keys.secret
                == b.current_priv && s.next_keys.secret == b.next_priv)
            &&& waiting(n, from) is None && get(n.buffers, from) is None
            &&& out.len() == (if waiting(m, from) is Some { 2int } else { 1 })
            &&& waiting(m, from) matches Some(msg) ==> exists|w: SessionInfo|
                out[0] == (OutView::SendToInner { dest: from, data: #[trigger] traffic_message(w, msg) })
                    && w.current == init.current
            &&& out.last() matches OutView::SendToInner { dest, data } && dest == from && data.len() > 0
                && data[0] == 2
        }),
{
    let s = session_from(m, from, init, clock, d);
    lemma_put(m.sessions, from, s);
    lemma_del(m.buffers, from);
    if let Some(msg) = waiting(m, from) {
        let t = sent(s, d.spare, msg.len(), clock.now);
        lemma_put(m.sessions, from, t);
        let w = send_ready(s, d.spare);
        let out = init_in(m, from, init, me, clock, d).1;
        assert(out[0] == (OutView::SendToInner { dest: from, data: traffic_message(w, msg) }));
    }
}

/// A newer handshake from a node with which there is a session resets the session to the keys that it
/// carries, and is answered; the answer announces the keys that the session now sends with.
pub proof fn lemma_handshake_resets_a_session(
    m: ManagerView,
    from: PublicKey,
    init: SessionInit,
    me: Identity,
    clock: Clock,
    d: Draws,
)
    requires
        get(m.sessions, from) matches Some(s) && init.seq > s.seq,
        curve_public_of(from) is Some,
    ensures
        ({
            let (n, out) = init_in(m, from, init, me, clock, d);
            let s = get(n.sessions, from)->0;
            &&& get(n.sessions, from) is Some
            &&& s.current == init.current && s.next == init.next && s.seq == init.seq
            &&& n.buffers == m.buffers
            &&& out.len() == 1 && (out[0] matches OutView::SendToInner { dest, data } && dest == from
                && data == init_message(
                SessionInit {
                    current: s.send_keys.public,
                    next: s.next_keys.public,
                    key_seq: s.local_key_seq,
                    seq: clock.unix_secs,
                },
                me.secret,
                curve_public_of(from)->0,
                2,
                d.ephemeral,
            ))
        }),
{
    let s = get(m.sessions, from)->0;
    lemma_put(m.sessions, from, updated(s, init, d.fresh, clock.now));
}

/// What a session reads is delivered, what it cannot place is answered with a handshake, and what it has
/// read before is dropped. A message from a node without a session is dropped, and so is one of
/// another type and one whose signature is wrong.
pub proof fn lemma_what_is_delivered(
    m: ManagerView,
    from: PublicKey,
    data: Seq<u8>,
    me: Identity,
    clock: Clock,
    d: Draws,
)
    ensures
        data.len() > 0 && data[0] == 3 ==> match get(m.sessions, from) {
            None => data_in(m, from, data, me, clock, d) == (m, Seq::<OutView>::empty()),
            Some(s) => match received(s, data, d.fresh, clock.now).1 {
                Ok(p) => data_in(m, from, data, me, clock, d).1.len() == 1 && data_in(
                    m,
                    from,
                    data,
                    me,
                    clock,
                    d,
                ).1[0] == (OutView::Deliver { source: from, data: p }),
                Err(RecvAction::Drop) => data_in(m, from, data, me, clock, d).1.len() == 0,
                Err(RecvAction::SendInit) => curve_public_of(from) is Some ==> data_in(
                    m,
                    from,
                    data,
                    me,
                    clock,
                    d,
                ).1.len() == 1,
            },
        },
        data.len() == 0 || data[0] == 0 || data[0] > 3 ==> data_in(m, from, data, me, clock, d) == (
            m,
            Seq::<OutView>::empty(),
        ),
        data.len() > 0 && (data[0] == 1 || data[0] == 2) && opened_init(data, me.curve, from) is Err
            ==> data_in(m, from, data, me, clock, d) == (m, Seq::<OutView>::empty()),
{
}

/// Exactly the sessions that were active within a minute are kept, and the payloads that wait for less
/// than one.
pub proof fn lemma_expiry_keeps_the_active(m: ManagerView, now: u64, k: PublicKey)
    requires
        manager_wf(m),
    ensures
        get(expired(m, now).sessions, k) == (match get(m.sessions, k) {
            Some(s) => if now <= s.last_activity + 60_000_000_000 {
                Some(s)
            } else {
                None
            },
            None => None,
        }),
        get(expired(m, now).buffers, k) == (match get(m.buffers, k) {
            Some(b) => if now < b.created + 60_000_000_000 {
                Some(b)
            } else {
                None
            },
            None => None,
        }),
{
    crate::table::lemma_kept(m.sessions, session_live(now));
    crate::table::lemma_kept(m.buffers, buffer_live(now));
}

/// A session that a handshake opens starts from nothing: its keys have the number zero on both sides,
/// nothing was read or counted, and a handshake with the same number is still taken. With no
/// handshake of ours under way its keys are drawn anew.
pub proof fn lemma_new_session_starts_from_nothing(
    m: ManagerView,
    from: PublicKey,
    init: SessionInit,
    me: Identity,
    clock: Clock,
    d: Draws,
)
    requires
        manager_wf(m),
        get(m.sessions, from) is None,
        waiting(m, from) is None,
        init.seq > 0,
    ensures
        get(init_in(m, from, init, me, clock, d).0.sessions, from) matches Some(s) && {
            &&& s.local_key_seq == 0 && s.remote_key_seq == 0
            &&& s.recv_nonce == 0 && s.send_nonce == 0 && s.next_send_nonce == 0 && s.next_recv_nonce
                == 0
            &&& s.rx == 0 && s.tx == 0
            &&& s.since == clock.now && s.last_activity == clock.now
            &&& s.rotated is None
            &&& s.seq + 1 == init.seq
            &&& s.recv_keys.secret == d.recv
            &&& get(m.buffers, from) is None ==> s.send_keys.secret == d.send && s.next_keys.secret
                == d.next
        },
{
    lemma_put(m.sessions, from, session_from(m, from, init, clock, d));
}

/// The answer to our handshake opens the session, with the keys that it tells, in place of our
/// handshake; what was waiting is sent, and nothing else.
pub proof fn lemma_answer_opens_the_session(
    m: ManagerView,
    from: PublicKey,
    ack: SessionInit,
    clock: Clock,
    d: Draws,
)
    requires
        manager_wf(m),
        get(m.sessions, from) is None,
        ack.seq > 0,
    ensures
        ({
            let (n, out) = ack_in(m, from, ack, clock, d);
            &&& get(n.buffers, from) is None
            &&& get(n.sessions, from) matches Some(s) && s.current == ack.current && s.next == ack.next
                && s.seq == ack.seq && s.remote_key_seq == ack.key_seq
            &&& match waiting(m, from) {
                None => out.len() == 0,
                Some(msg) => out.len() == 1 && get(n.sessions, from)->0.tx == msg.len() as u64
                    && exists|w: SessionInfo|
                    out[0] == (OutView::SendToInner {
                        dest: from,
                        data: #[trigger] traffic_message(w, msg),
                    }) && w.current == ack.current && w.remote_key_seq == ack.key_seq,
            }
        }),
{
    let s = session_from(m, from, ack, clock, d);
    let t = updated(s, ack, d.fresh, clock.now);
    lemma_del(m.buffers, from);
    if let Some(msg) = waiting(m, from) {
        lemma_put(m.sessions, from, sent(t, d.spare, msg.len(), clock.now));
        let data = traffic_message(send_ready(t, d.spare), msg);
    } else {
        lemma_put(m.sessions, from, t);
    }
}

/// A payload for a node that there is no session with, nor a handshake under way, starts one: the
/// handshake tells the keys that were drawn for it, as the first ones, and the time.
pub proof fn lemma_first_payload_starts_a_handshake(
    m: ManagerView,
    dest: PublicKey,
    msg: Seq<u8>,
    me: Identity,
    clock: Clock,
    d: Draws,
)
    requires
        get(m.sessions, dest) is None,
        get(m.buffers, dest) is None,
    ensures
        get(written_to(m, dest, msg, me, clock, d).0.buffers, dest) matches Some(b) && {
            &&& b.data == Some(msg)
            &&& b.current_priv == d.send && b.init.current == curve25519_public(d.send)
            &&& b.next_priv == d.next && b.init.next == curve25519_public(d.next)
            &&& b.init.key_seq == 0
            &&& b.init.seq == clock.unix_secs
            &&& b.created == clock.now
        },
{
    lemma_put(m.buffers, dest, BufferView { data: Some(msg), ..buffer_new(clock, d) });
}

/// Where a message cannot be read for want of keys, the session stays as it is, and its node is sent
/// a handshake with the keys that the session has.
pub proof fn lemma_unread_message_is_answered(
    m: ManagerView,
    from: PublicKey,
    data: Seq<u8>,
    me: Identity,
    clock: Clock,
    d: Draws,
    s: SessionInfo,
)
    requires
        data.len() > 0,
        data[0] == 3,
        get(m.sessions, from) == Some(s),
        received(s, data, d.fresh, clock.now).1 == Err::<Seq<u8>, RecvAction>(RecvAction::SendInit),
        curve_public_of(from) is Some,
    ensures
        ({
            let (n, out) = data_in(m, from, data, me, clock, d);
            &&& get(n.sessions, from) == Some(s)
            &&& n.buffers == m.buffers
            &&& out.len() == 1
            &&& out[0] == (OutView::SendToInner {
                dest: from,
                data: init_message(
                    SessionInit {
                        current: s.send_keys.public,
                        next: s.next_keys.public,
                        key_seq: s.local_key_seq,
                        seq: clock.unix_secs,
                    },
                    me.secret,
                    curve_public_of(from)->0,
                    1,
                    d.ephemeral,
                ),
            })
        }),
{
    crate::session::lemma_unread_changes_nothing(s, data, d.fresh, clock.now);
    lemma_put(m.sessions, from, s);
}

} // verus!
