//! Encrypted sessions: the handshake, the key ratchet and the traffic between two nodes.
use vstd::prelude::*;
use crate::boxes::{
    box_keys, box_open, box_opened, box_seal, box_sealed, curve25519_public, curve_public_of,
    curve_secret_of, ed25519_public_to_curve25519, keys_of, nonce_bytes, random_secret, BoxKeys,
    CurvePrivateKey, CurvePublicKey,
};
use crate::bytes::{
    append, append_be, be_bytes, be_value, lemma_be_inverse, lemma_be_len, lemma_be_round_trip,
    lemma_pow256_values, read_be, take_array, to_vec, PublicKey,
};
use crate::crypto::{
    ed25519_accepts, ed25519_public, ed25519_signature, sign_with_key, verify_signature,
};
use crate::traffic::elapsed;
use crate::types::Error;
use crate::wire::{
    array_of, encode_uvarint, lemma_array_of, lemma_uvarint_len, lemma_uvarint_round_trip,
    parse_uvarint, uvarint, WireReader,
};

verus! {

/// How long a session or a buffer lasts without activity, in nanoseconds.
pub const SESSION_TIMEOUT: u64 = 60_000_000_000;

/// How long no key is rotated after a rotation, in nanoseconds.
pub const ROTATION_INTERVAL: u64 = 60_000_000_000;

/// The least that a traffic message adds to its payload: the type, three numbers, a box and
/// a key.
pub const SESSION_TRAFFIC_OVERHEAD_MIN: usize = 52;

/// The most that a traffic message adds to its payload.
pub const SESSION_TRAFFIC_OVERHEAD: u64 = 79;

/// The length of a handshake message: the type, a key, and a box with a signature, two keys
/// and two numbers.
pub const SESSION_INIT_SIZE: usize = 193;

/// The type of a message without a meaning.
pub const SESSION_TYPE_DUMMY: u8 = 0;

/// The type of a message that opens or resets a session.
pub const SESSION_TYPE_INIT: u8 = 1;

/// The type of the answer to it.
pub const SESSION_TYPE_ACK: u8 = 2;

/// The type of a message that carries a payload.
pub const SESSION_TYPE_TRAFFIC: u8 = 3;

// ---------------------------------------------------------------------------
// Handshake messages
// ---------------------------------------------------------------------------

/// The content of a handshake message: the sender's current and next keys, the number of the
/// current key, and the time of the message.
#[derive(Clone, Copy, Debug, PartialEq, Eq)]
pub struct SessionInit {
    pub current: CurvePublicKey,
    pub next: CurvePublicKey,
    pub key_seq: u64,
    pub seq: u64,
}

/// The bytes of the content.
pub open spec fn init_body(i: SessionInit) -> Seq<u8> {
    i.current@ + i.next@ + be_bytes(i.key_seq as nat, 8) + be_bytes(i.seq as nat, 8)
}

/// The content that bytes give.
pub open spec fn init_of(b: Seq<u8>) -> SessionInit {
    SessionInit {
        current: array_of::<32>(b.subrange(0, 32)),
        next: array_of::<32>(b.subrange(32, 64)),
        key_seq: be_value(b.subrange(64, 72)) as u64,
        seq: be_value(b.subrange(72, 80)) as u64,
    }
}

/// The handshake message to the owner of a box key: the type, an ephemeral key, and a box with
/// the signature and the content. The signature covers the ephemeral key and the content.
pub open spec fn init_message(
    i: SessionInit,
    secret: [u8; 32],
    to_box: CurvePublicKey,
    msg_type: u8,
    ephemeral: CurvePrivateKey,
) -> Seq<u8> {
    let from = curve25519_public(ephemeral);
    seq![msg_type] + from@ + box_sealed(
        to_box,
        ephemeral,
        nonce_bytes(0),
        ed25519_signature(secret@, from@ + init_body(i)) + init_body(i),
    )
}

/// What a handshake message from a node holds for the owner of a private key.
pub open spec fn opened_init(data: Seq<u8>, our_curve: CurvePrivateKey, from: PublicKey) -> Result<
    SessionInit,
    Error,
> {
    if data.len() != SESSION_INIT_SIZE {
        Err(Error::Decode)
    } else {
        let from_box = data.subrange(1, 33);
        match box_opened(array_of::<32>(from_box), our_curve, nonce_bytes(0), data.subrange(33, 193)) {
            None => Err(Error::Decode),
            Some(p) => if ed25519_accepts(
                from@,
                from_box + p.subrange(64, 144),
                p.subrange(0, 64),
            ) {
                Ok(init_of(p.subrange(64, 144)))
            } else {
                Err(Error::BadMessage)
            },
        }
    }
}

proof fn lemma_init_body(i: SessionInit)
    ensures
        init_body(i).len() == 80,
        init_of(init_body(i)) == i,
{
    lemma_be_len(i.key_seq as nat, 8);
    lemma_be_len(i.seq as nat, 8);
    lemma_pow256_values();
    lemma_be_round_trip(i.key_seq as nat, 8);
    lemma_be_round_trip(i.seq as nat, 8);
    let b = init_body(i);
    assert(b.subrange(0, 32) =~= i.current@);
    assert(b.subrange(32, 64) =~= i.next@);
    assert(b.subrange(64, 72) =~= be_bytes(i.key_seq as nat, 8));
    assert(b.subrange(72, 80) =~= be_bytes(i.seq as nat, 8));
    lemma_array_of(i.current);
    lemma_array_of(i.next);
}

impl SessionInit {
    /// A content stamped with the time, in seconds since the epoch.
    pub fn new(current: &CurvePublicKey, next: &CurvePublicKey, key_seq: u64, unix_secs: u64) -> (r:
        Self)
        ensures
            r == (SessionInit { current: *current, next: *next, key_seq, seq: unix_secs }),
    {
        SessionInit { current: *current, next: *next, key_seq, seq: unix_secs }
    }

    fn append_body(&self, out: &mut Vec<u8>)
        ensures
            final(out)@ == old(out)@ + init_body(*self),
    {
        append(out, self.current.as_slice());
        append(out, self.next.as_slice());
        append_be(out, self.key_seq, 8);
        append_be(out, self.seq, 8);
        assert(out@ =~= old(out)@ + init_body(*self));
    }

    /// The handshake message to a node, made with a given ephemeral key. There is none where the
    /// node's key is no point of the curve. The node opens it to the same content.
    pub fn encrypt_with(
        &self,
        secret: &[u8; 32],
        to: &PublicKey,
        msg_type: u8,
        ephemeral: CurvePrivateKey,
    ) -> (r: Result<Vec<u8>, Error>)
        ensures
            match curve_public_of(*to) {
                None => r == Err::<Vec<u8>, Error>(Error::BadKey),
                Some(to_box) => r matches Ok(d) && d@ == init_message(
                    *self,
                    *secret,
                    to_box,
                    msg_type,
                    ephemeral,
                ) && d@.len() == SESSION_INIT_SIZE,
            },
            forall|theirs: [u8; 32], from: PublicKey|
                to@ == ed25519_public(theirs@) && from@ == ed25519_public(secret@) ==> r is Ok
                    && #[trigger] opened_init(r->Ok_0@, curve_secret_of(theirs), from) == Ok::<
                    SessionInit,
                    Error,
                >(*self),
    {
        let from_keys = box_keys(ephemeral);
        let to_box = match ed25519_public_to_curve25519(to) {
            Some(k) => k,
            None => {
                return Err(Error::BadKey);
            },
        };
        let mut signed: Vec<u8> = Vec::new();
        append(&mut signed, from_keys.public.as_slice());
        self.append_body(&mut signed);
        assert(signed@ =~= from_keys.public@ + init_body(*self));
        let sig = sign_with_key(secret, signed.as_slice());
        let mut payload: Vec<u8> = Vec::new();
        append(&mut payload, sig.as_slice());
        self.append_body(&mut payload);
        assert(payload@ =~= sig@ + init_body(*self));
        let sealed = match box_seal(payload.as_slice(), 0, &to_box, &ephemeral) {
            Some(b) => b,
            None => {
                return Err(Error::Encode);
            },
        };
        let mut data: Vec<u8> = Vec::new();
        data.push(msg_type);
        append(&mut data, from_keys.public.as_slice());
        append(&mut data, sealed.as_slice());
        proof {
            lemma_init_body(*self);
            assert(data@ =~= init_message(*self, *secret, to_box, msg_type, ephemeral));
            assert(data@.subrange(1, 33) =~= from_keys.public@);
            assert(data@.subrange(33, 193) =~= sealed@);
            lemma_array_of(from_keys.public);
            assert(payload@.subrange(64, 144) =~= init_body(*self));
            assert(payload@.subrange(0, 64) =~= sig@);
            assert forall|theirs: [u8; 32], from: PublicKey|
                to@ == ed25519_public(theirs@) && from@ == ed25519_public(
                    secret@,
                ) implies #[trigger] opened_init(data@, curve_secret_of(theirs), from) == Ok::<
                SessionInit,
                Error,
            >(*self) by {
                assert(to_box == curve25519_public(curve_secret_of(theirs)));
            }
        }
        Ok(data)
    }

    /// The handshake message to a node, made with an ephemeral key drawn at random. Whatever is
    /// drawn, the node opens it to the same content.
    pub fn encrypt(&self, secret: &[u8; 32], to: &PublicKey, msg_type: u8) -> (r: Result<
        Vec<u8>,
        Error,
    >)
        ensures
            curve_public_of(*to) is None ==> r == Err::<Vec<u8>, Error>(Error::BadKey),
            curve_public_of(*to) is Some ==> r is Ok && r->Ok_0@.len() == SESSION_INIT_SIZE
                && exists|ephemeral: CurvePrivateKey|
                r->Ok_0@ == #[trigger] init_message(
                    *self,
                    *secret,
                    curve_public_of(*to)->0,
                    msg_type,
                    ephemeral,
                ),
            forall|theirs: [u8; 32], from: PublicKey|
                to@ == ed25519_public(theirs@) && from@ == ed25519_public(secret@) ==> r is Ok
                    && #[trigger] opened_init(r->Ok_0@, curve_secret_of(theirs), from) == Ok::<
                    SessionInit,
                    Error,
                >(*self),
    {
        self.encrypt_with(secret, to, msg_type, random_secret())
    }

    /// Opens a handshake message from a node.
    pub fn decrypt(data: &[u8], our_curve: &CurvePrivateKey, from: &PublicKey) -> (r: Result<
        Self,
        Error,
    >)
        ensures
            r == opened_init(data@, *our_curve, *from),
    {
        if data.len() != SESSION_INIT_SIZE {
            return Err(Error::Decode);
        }
        let from_box = take_array::<32>(data, 1);
        proof {
            lemma_array_of(from_box);
            assert(from_box@ =~= data@.subrange(1, 33));
        }
        let sealed = vstd::slice::slice_subrange(data, 33, 193);
        let payload = match box_open(sealed, 0, &from_box, our_curve) {
            Some(p) => p,
            None => {
                return Err(Error::Decode);
            },
        };
        let sig = take_array::<64>(payload.as_slice(), 0);
        let current = take_array::<32>(payload.as_slice(), 64);
        let next = take_array::<32>(payload.as_slice(), 96);
        let key_seq: u64 = read_be(payload.as_slice(), 128, 8);
        let seq: u64 = read_be(payload.as_slice(), 136, 8);
        let init = SessionInit { current, next, key_seq, seq };
        let mut signed: Vec<u8> = Vec::new();
        append(&mut signed, from_box.as_slice());
        init.append_body(&mut signed);
        proof {
            let b = payload@.subrange(64, 144);
            lemma_array_of(current);
            lemma_array_of(next);
            assert(current@ =~= b.subrange(0, 32));
            assert(next@ =~= b.subrange(32, 64));
            assert(payload@.subrange(128, 136) =~= b.subrange(64, 72));
            assert(payload@.subrange(136, 144) =~= b.subrange(72, 80));
            lemma_be_inverse(b.subrange(64, 72));
            lemma_be_inverse(b.subrange(72, 80));
            assert(init_body(init) =~= b);
            assert(init == init_of(b));
            assert(signed@ =~= from_box@ + b);
            assert(sig@ =~= payload@.subrange(0, 64));
        }
        if verify_signature(from, signed.as_slice(), &sig) {
            Ok(init)
        } else {
            Err(Error::BadMessage)
        }
    }
}

// ---------------------------------------------------------------------------
// Sessions
// ---------------------------------------------------------------------------

/// A session with a remote node. Our keys are in three tiers: messages are read with the
/// receiving and sending keys, written with the sending key, and announce the next one.
#[derive(Clone, Copy)]
pub struct SessionInfo {
    /// The time of the last handshake message that was taken up.
    pub seq: u64,
    /// The number of the remote node's current key.
    pub remote_key_seq: u64,
    pub current: CurvePublicKey,
    pub next: CurvePublicKey,
    /// The number of our sending key.
    pub local_key_seq: u64,
    pub recv_keys: BoxKeys,
    pub recv_nonce: u64,
    pub send_keys: BoxKeys,
    pub send_nonce: u64,
    pub next_keys: BoxKeys,
    /// The last nonce read from the remote node's next key to our sending key.
    pub next_send_nonce: u64,
    /// The last nonce read from the remote node's next key to our receiving key.
    pub next_recv_nonce: u64,
    pub since: u64,
    pub rotated: Option<u64>,
    pub last_activity: u64,
    pub rx: u64,
    pub tx: u64,
}

/// What follows from a message that cannot be read.
#[derive(Clone, Copy, Debug, PartialEq, Eq, Structural)]
pub enum RecvAction {
    /// The message is dropped.
    Drop,
    /// The session is out of step: a handshake message should be sent.
    SendInit,
}

/// A pair of keys between which a message can be read.
#[derive(Clone, Copy, Debug, PartialEq, Eq, Structural)]
pub enum KeySlot {
    /// From the remote node's current key to our receiving key.
    CurrentToRecv,
    /// From its next key to our sending key.
    NextToSend,
    /// From its next key to our receiving key.
    NextToRecv,
}

/// Every key pair of the session is one.
pub open spec fn session_wf(s: SessionInfo) -> bool {
    &&& s.recv_keys == keys_of(s.recv_keys.secret)
    &&& s.send_keys == keys_of(s.send_keys.secret)
    &&& s.next_keys == keys_of(s.next_keys.secret)
}

/// A new session with the remote keys and our private keys. Its time is one before that of the
/// handshake, so that the handshake can still be taken up.
pub open spec fn session_new(
    init: SessionInit,
    recv: CurvePrivateKey,
    send: CurvePrivateKey,
    next: CurvePrivateKey,
    now: u64,
) -> SessionInfo {
    SessionInfo {
        seq: init.seq.wrapping_sub(1),
        remote_key_seq: 0,
        current: init.current,
        next: init.next,
        local_key_seq: 0,
        recv_keys: keys_of(recv),
        recv_nonce: 0,
        send_keys: keys_of(send),
        send_nonce: 0,
        next_keys: keys_of(next),
        next_send_nonce: 0,
        next_recv_nonce: 0,
        since: now,
        rotated: None,
        last_activity: now,
        rx: 0,
        tx: 0,
    }
}

/// The session with other nonces for new keys.
pub open spec fn renonced(s: SessionInfo, recv_nonce: u64, send_nonce: u64) -> SessionInfo {
    SessionInfo { recv_nonce, send_nonce, next_send_nonce: 0, next_recv_nonce: 0, ..s }
}

/// The session with our keys one tier on: what was sent with is received with, what was next is
/// sent with, and the fresh key is next.
pub open spec fn ratcheted(s: SessionInfo, fresh: CurvePrivateKey) -> SessionInfo {
    SessionInfo {
        recv_keys: s.send_keys,
        send_keys: s.next_keys,
        next_keys: keys_of(fresh),
        local_key_seq: s.local_key_seq.wrapping_add(1),
        ..s
    }
}

/// The session after a handshake message was taken up.
pub open spec fn updated(
    s: SessionInfo,
    init: SessionInit,
    fresh: CurvePrivateKey,
    now: u64,
) -> SessionInfo {
    let r = ratcheted(
        SessionInfo {
            current: init.current,
            next: init.next,
            seq: init.seq,
            remote_key_seq: init.key_seq,
            last_activity: now,
            ..s
        },
        fresh,
    );
    renonced(r, 0, s.send_nonce)
}

/// The session with which the next message is written: the nonce is one on, and where it has
/// run out our keys are too.
pub open spec fn send_ready(s: SessionInfo, fresh: CurvePrivateKey) -> SessionInfo {
    let n = s.send_nonce.wrapping_add(1);
    if n == 0 {
        renonced(ratcheted(s, fresh), 0, 0)
    } else {
        SessionInfo { send_nonce: n, ..s }
    }
}

/// The session after a payload of a length was written.
pub open spec fn sent(s: SessionInfo, fresh: CurvePrivateKey, len: nat, now: u64) -> SessionInfo {
    let r = send_ready(s, fresh);
    SessionInfo { tx: s.tx.wrapping_add(len as u64), last_activity: now, ..r }
}

/// The box with our next key and a payload.
pub open spec fn traffic_box(s: SessionInfo, payload: Seq<u8>) -> Seq<u8> {
    box_sealed(
        s.current,
        s.send_keys.secret,
        nonce_bytes(s.send_nonce),
        s.next_keys.public@ + payload,
    )
}

/// The message with a payload: the type, the numbers of the keys and the nonce, and a box with
/// our next key and the payload.
pub open spec fn traffic_message(s: SessionInfo, payload: Seq<u8>) -> Seq<u8> {
    seq![SESSION_TYPE_TRAFFIC] + uvarint(s.local_key_seq) + uvarint(s.remote_key_seq) + uvarint(
        s.send_nonce,
    ) + traffic_box(s, payload)
}

/// How long the message with a payload is: the box is forty-eight bytes longer than the payload.
pub open spec fn traffic_len(s: SessionInfo, payload: Seq<u8>) -> nat {
    1 + uvarint(s.local_key_seq).len() + uvarint(s.remote_key_seq).len() + uvarint(
        s.send_nonce,
    ).len() + 48 + payload.len()
}

/// The parts of a traffic message: the numbers of the sender's and the reader's key, the nonce
/// and the box.
pub open spec fn parse_header(msg: Seq<u8>) -> Option<(u64, u64, u64, Seq<u8>)> {
    if msg.len() < SESSION_TRAFFIC_OVERHEAD_MIN || msg[0] != SESSION_TYPE_TRAFFIC {
        None
    } else {
        match parse_uvarint(msg.skip(1)) {
            None => None,
            Some((remote, r1)) => match parse_uvarint(r1) {
                None => None,
                Some((local, r2)) => match parse_uvarint(r2) {
                    None => None,
                    Some((nonce, r3)) => Some((remote, local, nonce, r3)),
                },
            },
        }
    }
}

/// The keys to which the numbers of a message point.
pub open spec fn slot_of(s: SessionInfo, remote: u64, local: u64) -> Option<KeySlot> {
    let from_current = remote == s.remote_key_seq;
    let from_next = remote == s.remote_key_seq.wrapping_add(1);
    let to_recv = local.wrapping_add(1) == s.local_key_seq;
    let to_send = local == s.local_key_seq;
    if from_current && to_recv {
        Some(KeySlot::CurrentToRecv)
    } else if from_next && to_send {
        Some(KeySlot::NextToSend)
    } else if from_next && to_recv {
        Some(KeySlot::NextToRecv)
    } else {
        None
    }
}

/// The last nonce read between a pair of keys.
pub open spec fn slot_nonce(s: SessionInfo, slot: KeySlot) -> u64 {
    match slot {
        KeySlot::CurrentToRecv => s.recv_nonce,
        KeySlot::NextToSend => s.next_send_nonce,
        KeySlot::NextToRecv => s.next_recv_nonce,
    }
}

/// The remote key of a pair.
pub open spec fn slot_public(s: SessionInfo, slot: KeySlot) -> CurvePublicKey {
    match slot {
        KeySlot::CurrentToRecv => s.current,
        KeySlot::NextToSend => s.next,
        KeySlot::NextToRecv => s.next,
    }
}

/// Our key of a pair.
pub open spec fn slot_secret(s: SessionInfo, slot: KeySlot) -> CurvePrivateKey {
    match slot {
        KeySlot::CurrentToRecv => s.recv_keys.secret,
        KeySlot::NextToSend => s.send_keys.secret,
        KeySlot::NextToRecv => s.recv_keys.secret,
    }
}

/// The session after a nonce was read between a pair of keys.
pub open spec fn noted(s: SessionInfo, slot: KeySlot, nonce: u64) -> SessionInfo {
    match slot {
        KeySlot::CurrentToRecv => SessionInfo { recv_nonce: nonce, ..s },
        KeySlot::NextToSend => SessionInfo { next_send_nonce: nonce, ..s },
        KeySlot::NextToRecv => SessionInfo { next_recv_nonce: nonce, ..s },
    }
}

/// Whether keys may be rotated: not within the interval since the last rotation.
pub open spec fn may_rotate(s: SessionInfo, now: u64) -> bool {
    match s.rotated {
        None => true,
        Some(t) => elapsed(t, now) > ROTATION_INTERVAL,
    }
}

/// The session after a message from the remote node's next key: where keys may be rotated, both
/// sides' keys go one tier on, and the key that the message announced is the remote node's next.
pub open spec fn rotated(
    s: SessionInfo,
    announced: CurvePublicKey,
    nonce: u64,
    fresh: CurvePrivateKey,
    now: u64,
) -> SessionInfo {
    if may_rotate(s, now) {
        let r = ratcheted(
            SessionInfo {
                current: s.next,
                next: announced,
                remote_key_seq: s.remote_key_seq.wrapping_add(1),
                rotated: Some(now),
                ..s
            },
            fresh,
        );
        renonced(r, nonce, 0)
    } else {
        s
    }
}

/// Reads a message: what becomes of the session, and the payload or what follows where there is
/// none.
pub open spec fn received(
    s: SessionInfo,
    msg: Seq<u8>,
    fresh: CurvePrivateKey,
    now: u64,
) -> (SessionInfo, Result<Seq<u8>, RecvAction>) {
    match parse_header(msg) {
        None => (s, Err(RecvAction::Drop)),
        Some((remote, local, nonce, sealed)) => match slot_of(s, remote, local) {
            None => (s, Err(RecvAction::SendInit)),
            Some(slot) => if slot_nonce(s, slot) >= nonce {
                (s, Err(RecvAction::Drop))
            } else {
                match box_opened(
                    slot_public(s, slot),
                    slot_secret(s, slot),
                    nonce_bytes(nonce),
                    sealed,
                ) {
                    None => (s, Err(RecvAction::SendInit)),
                    Some(inner) => if inner.len() < 32 {
                        (s, Err(RecvAction::Drop))
                    } else {
                        let payload = inner.skip(32);
                        let n = noted(s, slot, nonce);
                        let r = if slot == KeySlot::CurrentToRecv {
                            n
                        } else {
                            rotated(n, array_of::<32>(inner.take(32)), nonce, fresh, now)
                        };
                        (
                            SessionInfo {
                                rx: s.rx.wrapping_add(payload.len() as u64),
                                last_activity: now,
                                ..r
                            },
                            Ok(payload),
                        )
                    },
                }
            },
        },
    }
}

/// Whether a reader has the keys for the next message of a writer, and has read no nonce as high.
pub open spec fn hears(reader: SessionInfo, writer: SessionInfo) -> bool {
    match slot_of(reader, writer.local_key_seq, writer.remote_key_seq) {
        None => false,
        Some(slot) => {
            &&& slot_nonce(reader, slot) < writer.send_nonce
            &&& slot_public(reader, slot) == writer.send_keys.public
            &&& writer.current == curve25519_public(slot_secret(reader, slot))
        },
    }
}

/// Whether everyone who hears a writer reads a payload that it writes.
pub open spec fn readable(writer: SessionInfo, msg: Seq<u8>) -> bool {
    forall|reader: SessionInfo, key: CurvePrivateKey, at: u64|
        hears(reader, writer) ==> (#[trigger] received(
            reader,
            traffic_message(writer, msg),
            key,
            at,
        )).1 == Ok::<Seq<u8>, RecvAction>(msg)
}

proof fn lemma_traffic_header(s: SessionInfo, payload: Seq<u8>, sealed: Seq<u8>)
    requires
        sealed.len() == payload.len() + 48,
        traffic_message(s, payload) == seq![SESSION_TYPE_TRAFFIC] + uvarint(s.local_key_seq)
            + uvarint(s.remote_key_seq) + uvarint(s.send_nonce) + sealed,
    ensures
        parse_header(traffic_message(s, payload)) == Some(
            (s.local_key_seq, s.remote_key_seq, s.send_nonce, sealed),
        ),
{
    let m = traffic_message(s, payload);
    lemma_uvarint_len(s.local_key_seq);
    lemma_uvarint_len(s.remote_key_seq);
    lemma_uvarint_len(s.send_nonce);
    let r2 = uvarint(s.send_nonce) + sealed;
    let r1 = uvarint(s.remote_key_seq) + r2;
    assert(m.skip(1) =~= uvarint(s.local_key_seq) + r1);
    lemma_uvarint_round_trip(s.local_key_seq, r1);
    lemma_uvarint_round_trip(s.remote_key_seq, r2);
    lemma_uvarint_round_trip(s.send_nonce, sealed);
}

impl SessionInfo {
    /// A new session, with our private keys given.
    pub fn new_with(
        init: &SessionInit,
        recv: CurvePrivateKey,
        send: CurvePrivateKey,
        next: CurvePrivateKey,
        now: u64,
    ) -> (r: Self)
        ensures
            r == session_new(*init, recv, send, next, now),
            session_wf(r),
    {
        SessionInfo {
            seq: init.seq.wrapping_sub(1),
            remote_key_seq: 0,
            current: init.current,
            next: init.next,
            local_key_seq: 0,
            recv_keys: box_keys(recv),
            recv_nonce: 0,
            send_keys: box_keys(send),
            send_nonce: 0,
            next_keys: box_keys(next),
            next_send_nonce: 0,
            next_recv_nonce: 0,
            since: now,
            rotated: None,
            last_activity: now,
            rx: 0,
            tx: 0,
        }
    }

    /// A new session, with private keys drawn at random.
    pub fn new(init: &SessionInit, now: u64) -> (r: Self)
        ensures
            exists|recv: CurvePrivateKey, send: CurvePrivateKey, next: CurvePrivateKey|
                r == #[trigger] session_new(*init, recv, send, next, now),
            session_wf(r),
    {
        SessionInfo::new_with(init, random_secret(), random_secret(), random_secret(), now)
    }

    fn ratchet(&mut self, fresh: CurvePrivateKey)
        ensures
            *final(self) == ratcheted(*old(self), fresh),
    {
        self.recv_keys = self.send_keys;
        self.send_keys = self.next_keys;
        self.next_keys = box_keys(fresh);
        self.local_key_seq = self.local_key_seq.wrapping_add(1);
    }

    fn fix_shared(&mut self, recv_nonce: u64, send_nonce: u64)
        ensures
            *final(self) == renonced(*old(self), recv_nonce, send_nonce),
    {
        self.next_send_nonce = 0;
        self.next_recv_nonce = 0;
        self.recv_nonce = recv_nonce;
        self.send_nonce = send_nonce;
    }

    /// Takes up a handshake message, with the fresh key given.
    pub fn handle_update_with(&mut self, init: &SessionInit, fresh: CurvePrivateKey, now: u64)
        ensures
            *final(self) == updated(*old(self), *init, fresh, now),
            session_wf(*old(self)) ==> session_wf(*final(self)),
    {
        self.current = init.current;
        self.next = init.next;
        self.seq = init.seq;
        self.remote_key_seq = init.key_seq;
        self.ratchet(fresh);
        let send_nonce: u64 = self.send_nonce;
        self.fix_shared(0, send_nonce);
        self.last_activity = now;
    }

    /// Takes over the keys of a handshake, with a key drawn at random.
    pub fn handle_update(&mut self, init: &SessionInit, now: u64)
        ensures
            exists|fresh: CurvePrivateKey|
                *final(self) == #[trigger] updated(*old(self), *init, fresh, now),
            session_wf(*old(self)) ==> session_wf(*final(self)),
    {
        self.handle_update_with(init, random_secret(), now);
    }

    /// Writes a payload, with a key drawn at random for the case that the nonces have run out.
    /// Whoever hears the writer reads the payload.
    pub fn do_send(&mut self, msg: &[u8], now: u64) -> (r: Result<Vec<u8>, Error>)
        ensures
            exists|fresh: CurvePrivateKey|
                *final(self) == #[trigger] sent(*old(self), fresh, msg@.len(), now) && (
                r matches Ok(d) && d@ == traffic_message(send_ready(*old(self), fresh), msg@)) && (
                session_wf(*old(self)) ==> readable(send_ready(*old(self), fresh), msg@))
                    && traffic_box(send_ready(*old(self), fresh), msg@).len() == 48 + msg@.len()
                    && r->Ok_0@.len() == traffic_len(send_ready(*old(self), fresh), msg@),
            session_wf(*old(self)) ==> session_wf(*final(self)),
            r->Ok_0@.len() <= msg@.len() + SESSION_TRAFFIC_OVERHEAD,
    {
        self.do_send_with(msg, random_secret(), now)
    }

    /// Reads a message, with a key drawn at random for the case that keys are rotated.
    pub fn do_recv(&mut self, msg: &[u8], now: u64) -> (r: Result<Vec<u8>, RecvAction>)
        ensures
            exists|fresh: CurvePrivateKey|
                *final(self) == (#[trigger] received(*old(self), msg@, fresh, now)).0 && match (
                    r,
                    received(*old(self), msg@, fresh, now).1,
                ) {
                    (Ok(d), Ok(p)) => d@ == p,
                    (Err(a), Err(b)) => a == b,
                    _ => false,
                },
            session_wf(*old(self)) ==> session_wf(*final(self)),
    {
        self.do_recv_with(msg, random_secret(), now)
    }

    /// Writes a payload, with a key for the case that the nonces have run out. Whoever hears the
    /// writer reads the payload.
    pub fn do_send_with(&mut self, msg: &[u8], fresh: CurvePrivateKey, now: u64) -> (r: Result<
        Vec<u8>,
        Error,
    >)
        ensures
            *final(self) == sent(*old(self), fresh, msg@.len(), now),
            r matches Ok(d) && d@ == traffic_message(send_ready(*old(self), fresh), msg@),
            session_wf(*old(self)) ==> session_wf(*final(self)),
            session_wf(*old(self)) ==> readable(send_ready(*old(self), fresh), msg@),
            traffic_box(send_ready(*old(self), fresh), msg@).len() == 48 + msg@.len(),
            r->Ok_0@.len() == traffic_len(send_ready(*old(self), fresh), msg@),
            r->Ok_0@.len() <= msg@.len() + SESSION_TRAFFIC_OVERHEAD,
    {
        self.send_nonce = self.send_nonce.wrapping_add(1);
        if self.send_nonce == 0 {
            self.ratchet(fresh);
            self.fix_shared(0, 0);
        }
        let ghost ready = *self;
        assert(ready == send_ready(*old(self), fresh));
        let mut data: Vec<u8> = Vec::new();
        data.push(SESSION_TYPE_TRAFFIC);
        encode_uvarint(&mut data, self.local_key_seq);
        encode_uvarint(&mut data, self.remote_key_seq);
        encode_uvarint(&mut data, self.send_nonce);
        let mut inner: Vec<u8> = Vec::new();
        append(&mut inner, self.next_keys.public.as_slice());
        append(&mut inner, msg);
        assert(inner@ =~= self.next_keys.public@ + msg@);
        let sealed = match box_seal(
            inner.as_slice(),
            self.send_nonce,
            &self.current,
            &self.send_keys.secret,
        ) {
            Some(b) => b,
            None => {
                return Err(Error::Encode);
            },
        };
        append(&mut data, sealed.as_slice());
        self.tx = self.tx.wrapping_add(msg.len() as u64);
        self.last_activity = now;
        proof {
            assert(data@ =~= traffic_message(ready, msg@));
            lemma_traffic_header(ready, msg@, sealed@);
            assert(inner@.skip(32) =~= msg@);
            lemma_uvarint_len(ready.local_key_seq);
            lemma_uvarint_len(ready.remote_key_seq);
            lemma_uvarint_len(ready.send_nonce);
        }
        Ok(data)
    }

    /// Reads a message, with a key for the case that keys are rotated.
    pub fn do_recv_with(&mut self, msg: &[u8], fresh: CurvePrivateKey, now: u64) -> (r: Result<
        Vec<u8>,
        RecvAction,
    >)
        ensures
            *final(self) == received(*old(self), msg@, fresh, now).0,
            match (r, received(*old(self), msg@, fresh, now).1) {
                (Ok(d), Ok(p)) => d@ == p,
                (Err(a), Err(b)) => a == b,
                _ => false,
            },
            session_wf(*old(self)) ==> session_wf(*final(self)),
    {
        if msg.len() < SESSION_TRAFFIC_OVERHEAD_MIN || msg[0] != SESSION_TYPE_TRAFFIC {
            return Err(RecvAction::Drop);
        }
        let rest = vstd::slice::slice_subrange(msg, 1, msg.len());
        assert(rest@ =~= msg@.skip(1));
        let mut reader = WireReader::new(rest);
        let remote: u64 = match reader.read_uvarint() {
            Ok(v) => v,
            Err(_) => {
                return Err(RecvAction::Drop);
            },
        };
        let local: u64 = match reader.read_uvarint() {
            Ok(v) => v,
            Err(_) => {
                return Err(RecvAction::Drop);
            },
        };
        let nonce: u64 = match reader.read_uvarint() {
            Ok(v) => v,
            Err(_) => {
                return Err(RecvAction::Drop);
            },
        };
        let sealed = reader.read_rest();
        let slot = match self.find_slot(remote, local) {
            Some(slot) => slot,
            None => {
                return Err(RecvAction::SendInit);
            },
        };
        let (public, secret, last): (CurvePublicKey, CurvePrivateKey, u64) = match slot {
            KeySlot::CurrentToRecv => (self.current, self.recv_keys.secret, self.recv_nonce),
            KeySlot::NextToSend => (self.next, self.send_keys.secret, self.next_send_nonce),
            KeySlot::NextToRecv => (self.next, self.recv_keys.secret, self.next_recv_nonce),
        };
        if last >= nonce {
            return Err(RecvAction::Drop);
        }
        let inner = match box_open(sealed.as_slice(), nonce, &public, &secret) {
            Some(i) => i,
            None => {
                return Err(RecvAction::SendInit);
            },
        };
        if inner.len() < 32 {
            return Err(RecvAction::Drop);
        }
        let announced = take_array::<32>(inner.as_slice(), 0);
        let payload = to_vec(vstd::slice::slice_subrange(inner.as_slice(), 32, inner.len()));
        proof {
            lemma_array_of(announced);
            assert(announced@ =~= inner@.take(32));
            assert(payload@ =~= inner@.skip(32));
        }
        match slot {
            KeySlot::CurrentToRecv => {
                self.recv_nonce = nonce;
            },
            KeySlot::NextToSend => {
                self.next_send_nonce = nonce;
                self.maybe_ratchet_on_recv(announced, nonce, fresh, now);
            },
            KeySlot::NextToRecv => {
                self.next_recv_nonce = nonce;
                self.maybe_ratchet_on_recv(announced, nonce, fresh, now);
            },
        }
        self.rx = self.rx.wrapping_add(payload.len() as u64);
        self.last_activity = now;
        Ok(payload)
    }

    fn find_slot(&self, remote: u64, local: u64) -> (r: Option<KeySlot>)
        ensures
            r == slot_of(*self, remote, local),
    {
        let from_current = remote == self.remote_key_seq;
        let from_next = remote == self.remote_key_seq.wrapping_add(1);
        let to_recv = local.wrapping_add(1) == self.local_key_seq;
        let to_send = local == self.local_key_seq;
        if from_current && to_recv {
            Some(KeySlot::CurrentToRecv)
        } else if from_next && to_send {
            Some(KeySlot::NextToSend)
        } else if from_next && to_recv {
            Some(KeySlot::NextToRecv)
        } else {
            None
        }
    }

    fn maybe_ratchet_on_recv(
        &mut self,
        announced: CurvePublicKey,
        nonce: u64,
        fresh: CurvePrivateKey,
        now: u64,
    )
        ensures
            *final(self) == rotated(*old(self), announced, nonce, fresh, now),
    {
        let due: bool = match self.rotated {
            None => true,
            Some(t) => now.saturating_sub(t) > ROTATION_INTERVAL,
        };
        if due {
            self.current = self.next;
            self.next = announced;
            self.remote_key_seq = self.remote_key_seq.wrapping_add(1);
            self.ratchet(fresh);
            self.fix_shared(nonce, 0);
            self.rotated = Some(now);
        }
    }

    /// Whether the session has been idle for too long.
    pub fn is_expired(&self, now: u64) -> (r: bool)
        ensures
            r == (elapsed(self.last_activity, now) > SESSION_TIMEOUT),
    {
        now.saturating_sub(self.last_activity) > SESSION_TIMEOUT
    }
}

// ---------------------------------------------------------------------------
// Laws
// ---------------------------------------------------------------------------

/// A message that was read is not read again.
pub proof fn lemma_no_replay(
    s: SessionInfo,
    msg: Seq<u8>,
    fresh: CurvePrivateKey,
    now: u64,
    again: CurvePrivateKey,
    later: u64,
)
    requires
        received(s, msg, fresh, now).1 is Ok,
    ensures
        received(received(s, msg, fresh, now).0, msg, again, later).1 is Err,
{
}

/// A message is only read between keys that its numbers point to, with a nonce above every one
/// that was read between them.
pub proof fn lemma_read_nonce_is_new(
    s: SessionInfo,
    msg: Seq<u8>,
    fresh: CurvePrivateKey,
    now: u64,
)
    requires
        received(s, msg, fresh, now).1 is Ok,
    ensures
        parse_header(msg) matches Some((remote, local, nonce, _)) && slot_of(
            s,
            remote,
            local,
        ) matches Some(slot) && slot_nonce(s, slot) < nonce,
{
}

/// A message that cannot be read leaves the session as it is.
pub proof fn lemma_unread_changes_nothing(
    s: SessionInfo,
    msg: Seq<u8>,
    fresh: CurvePrivateKey,
    now: u64,
)
    requires
        received(s, msg, fresh, now).1 is Err,
    ensures
        received(s, msg, fresh, now).0 == s,
{
}

/// No two messages in a row are written with the same key and nonce.
pub proof fn lemma_nonce_not_reused(
    s: SessionInfo,
    fresh: CurvePrivateKey,
    len: nat,
    now: u64,
    later: CurvePrivateKey,
)
    ensures
        ({
            let first = send_ready(s, fresh);
            let second = send_ready(sent(s, fresh, len, now), later);
            if second.local_key_seq == first.local_key_seq {
                second.send_keys == first.send_keys && first.send_nonce < second.send_nonce
            } else {
                second.local_key_seq == first.local_key_seq.wrapping_add(1)
            }
        }),
{
}

/// Messages are read in the order in which they are written: who has read one hears the next.
/// This leaves out a message from the remote node's next key to our receiving key upon which
/// keys are rotated, after which the writer is two keys behind.
pub proof fn lemma_next_is_heard(
    reader: SessionInfo,
    writer: SessionInfo,
    msg: Seq<u8>,
    fresh: CurvePrivateKey,
    now: u64,
)
    requires
        hears(reader, writer),
        writer.send_nonce < u64::MAX,
        parse_header(msg) matches Some((remote, local, nonce, _)) && remote == writer.local_key_seq
            && local == writer.remote_key_seq && nonce == writer.send_nonce,
        received(reader, msg, fresh, now).1 is Ok,
        slot_of(reader, writer.local_key_seq, writer.remote_key_seq) == Some(KeySlot::NextToRecv)
            ==> !may_rotate(reader, now),
    ensures
        forall|key: CurvePrivateKey|
            hears(received(reader, msg, fresh, now).0, #[trigger] send_ready(writer, key)),
{
}

/// Once a message announced with a rotation is read, both sides are one key on: the next key of
/// the remote node is the one that the message announced.
pub proof fn lemma_rotation_moves_on(
    s: SessionInfo,
    announced: CurvePublicKey,
    nonce: u64,
    fresh: CurvePrivateKey,
    now: u64,
)
    requires
        may_rotate(s, now),
    ensures
        ({
            let r = rotated(s, announced, nonce, fresh, now);
            &&& r.current == s.next
            &&& r.next == announced
            &&& r.recv_keys == s.send_keys
            &&& r.send_keys == s.next_keys
            &&& r.next_keys == keys_of(fresh)
            &&& !may_rotate(r, now)
        }),
{
}

/// Which keys a message is heard between: the remote node's present key and our receiving key, or its
/// next key and either of our sending and receiving keys. Our receiving key is the one before our
/// sending key. What is written with any other keys asks for a new handshake.
pub proof fn lemma_which_keys_are_heard(
    s: SessionInfo,
    msg: Seq<u8>,
    fresh: CurvePrivateKey,
    now: u64,
)
    requires
        parse_header(msg) is Some,
    ensures
        parse_header(msg) matches Some((remote, local, nonce, sealed)) && {
            let present = remote == s.remote_key_seq;
            let next = remote == s.remote_key_seq.wrapping_add(1);
            let to_send = local == s.local_key_seq;
            let to_recv = local.wrapping_add(1) == s.local_key_seq;
            let heard = (present && to_recv) || (next && (to_send || to_recv));
            &&& !heard ==> received(s, msg, fresh, now) == (
                s,
                Err::<Seq<u8>, RecvAction>(RecvAction::SendInit),
            )
            &&& present && to_recv && s.recv_nonce < nonce ==> match box_opened(
                s.current,
                s.recv_keys.secret,
                nonce_bytes(nonce),
                sealed,
            ) {
                Some(inner) => inner.len() >= 32 ==> received(s, msg, fresh, now).1 == Ok::<
                    Seq<u8>,
                    RecvAction,
                >(inner.skip(32)),
                None => received(s, msg, fresh, now).1 == Err::<Seq<u8>, RecvAction>(
                    RecvAction::SendInit,
                ),
            }
            &&& !(present && to_recv) && next && to_send && s.next_send_nonce < nonce ==> match box_opened(
                s.next,
                s.send_keys.secret,
                nonce_bytes(nonce),
                sealed,
            ) {
                Some(inner) => inner.len() >= 32 ==> received(s, msg, fresh, now).1 == Ok::<
                    Seq<u8>,
                    RecvAction,
                >(inner.skip(32)),
                None => received(s, msg, fresh, now).1 == Err::<Seq<u8>, RecvAction>(
                    RecvAction::SendInit,
                ),
            }
            &&& !(present && to_recv) && next && !to_send && to_recv && s.next_recv_nonce < nonce
                ==> match box_opened(s.next, s.recv_keys.secret, nonce_bytes(nonce), sealed) {
                Some(inner) => inner.len() >= 32 ==> received(s, msg, fresh, now).1 == Ok::<
                    Seq<u8>,
                    RecvAction,
                >(inner.skip(32)),
                None => received(s, msg, fresh, now).1 == Err::<Seq<u8>, RecvAction>(
                    RecvAction::SendInit,
                ),
            }
        },
{
}

/// What is read and written is counted by the length of the payload, and is a sign of life. A payload
/// that is read from the present key changes no key.
pub proof fn lemma_payloads_are_counted(
    s: SessionInfo,
    msg: Seq<u8>,
    fresh: CurvePrivateKey,
    len: nat,
    now: u64,
)
    ensures
        received(s, msg, fresh, now).1 matches Ok(payload) ==> {
            let r = received(s, msg, fresh, now).0;
            &&& r.rx == s.rx.wrapping_add(payload.len() as u64)
            &&& r.tx == s.tx
            &&& r.last_activity == now
            &&& r.since == s.since
            &&& (parse_header(msg) matches Some((remote, _, _, _)) && remote == s.remote_key_seq
                && s.remote_key_seq != s.remote_key_seq.wrapping_add(1)) ==> r.current == s.current
                && r.next == s.next && r.send_keys == s.send_keys && r.recv_keys == s.recv_keys
                && r.next_keys == s.next_keys
        },
        sent(s, fresh, len, now).tx == s.tx.wrapping_add(len as u64),
        sent(s, fresh, len, now).rx == s.rx,
        sent(s, fresh, len, now).last_activity == now,
{
}

/// Keys are rotated at most once a minute, and the first time at once. Where they are not, a message
/// from the remote node's next key is read all the same and moves no key.
pub proof fn lemma_when_keys_are_rotated(
    s: SessionInfo,
    announced: CurvePublicKey,
    nonce: u64,
    fresh: CurvePrivateKey,
    now: u64,
)
    ensures
        s.rotated is None ==> may_rotate(s, now),
        s.rotated matches Some(t) ==> (may_rotate(s, now) <==> now > t + 60_000_000_000),
        !may_rotate(s, now) ==> rotated(s, announced, nonce, fresh, now) == s,
        may_rotate(s, now) ==> {
            let r = rotated(s, announced, nonce, fresh, now);
            &&& r.remote_key_seq == s.remote_key_seq.wrapping_add(1)
            &&& r.local_key_seq == s.local_key_seq.wrapping_add(1)
            &&& r.recv_nonce == nonce && r.send_nonce == 0
            &&& r.rotated == Some(now)
        },
{
}

/// A handshake gives the session the keys and numbers that it carries, moves our own keys one tier on,
/// and starts the nonces of the new keys anew.
pub proof fn lemma_handshake_sets_the_keys(
    s: SessionInfo,
    init: SessionInit,
    fresh: CurvePrivateKey,
    now: u64,
)
    ensures
        ({
            let r = updated(s, init, fresh, now);
            &&& r.current == init.current && r.next == init.next
            &&& r.seq == init.seq && r.remote_key_seq == init.key_seq
            &&& r.recv_keys == s.send_keys && r.send_keys == s.next_keys && r.next_keys == keys_of(
                fresh,
            )
            &&& r.local_key_seq == s.local_key_seq.wrapping_add(1)
            &&& r.recv_nonce == 0 && r.next_send_nonce == 0 && r.next_recv_nonce == 0
            &&& r.last_activity == now
            &&& r.rx == s.rx && r.tx == s.tx && r.since == s.since
        }),
{
}

/// What is not new, or holds no key, is dropped: a message without a header, one with a nonce that is
/// no higher than the last one read with its keys, and one whose box holds less than a key. Nothing
/// changes by it.
pub proof fn lemma_old_messages_are_dropped(
    s: SessionInfo,
    msg: Seq<u8>,
    fresh: CurvePrivateKey,
    now: u64,
)
    ensures
        ({
            let dropped = (s, Err::<Seq<u8>, RecvAction>(RecvAction::Drop));
            match parse_header(msg) {
                None => received(s, msg, fresh, now) == dropped,
                Some((remote, local, nonce, sealed)) => {
                    let present = remote == s.remote_key_seq && local.wrapping_add(1)
                        == s.local_key_seq;
                    let next = remote == s.remote_key_seq.wrapping_add(1);
                    &&& present && nonce <= s.recv_nonce ==> received(s, msg, fresh, now) == dropped
                    &&& !present && next && local == s.local_key_seq && nonce <= s.next_send_nonce
                        ==> received(s, msg, fresh, now) == dropped
                    &&& !present && next && local != s.local_key_seq && local.wrapping_add(1)
                        == s.local_key_seq && nonce <= s.next_recv_nonce ==> received(
                        s,
                        msg,
                        fresh,
                        now,
                    ) == dropped
                    &&& present && nonce > s.recv_nonce && (box_opened(
                        s.current,
                        s.recv_keys.secret,
                        nonce_bytes(nonce),
                        sealed,
                    ) matches Some(inner) && inner.len() < 32) ==> received(s, msg, fresh, now)
                        == dropped
                },
            }
        }),
{
}

/// A message of the present keys only moves their nonce on. One of the next keys makes them the
/// present ones, with the key that it announces as the next, unless keys were changed a short while
/// ago; else it moves the nonce of the keys on that it was read with.
pub proof fn lemma_what_reading_changes(
    s: SessionInfo,
    msg: Seq<u8>,
    fresh: CurvePrivateKey,
    now: u64,
)
    requires
        received(s, msg, fresh, now).1 is Ok,
        s.remote_key_seq < u64::MAX,
    ensures
        parse_header(msg) matches Some((remote, local, nonce, sealed)) && {
            let r = received(s, msg, fresh, now).0;
            let waits = s.rotated matches Some(t) && now <= t + 60_000_000_000;
            &&& remote == s.remote_key_seq ==> {
                &&& r.recv_nonce == nonce
                &&& r.next_send_nonce == s.next_send_nonce
                &&& r.next_recv_nonce == s.next_recv_nonce
                &&& r.remote_key_seq == s.remote_key_seq
                &&& r.local_key_seq == s.local_key_seq
                &&& r.rotated == s.rotated
            }
            &&& remote != s.remote_key_seq ==> remote == s.remote_key_seq + 1
            &&& remote != s.remote_key_seq && !waits ==> {
                &&& r.current == s.next
                &&& r.recv_keys == s.send_keys
                &&& r.send_keys == s.next_keys
                &&& r.next_keys == keys_of(fresh)
                &&& r.remote_key_seq == s.remote_key_seq + 1
                &&& r.local_key_seq == s.local_key_seq.wrapping_add(1)
                &&& r.recv_nonce == nonce
                &&& r.send_nonce == 0
                &&& r.rotated == Some(now)
                &&& exists|inner: Seq<u8>|
                    inner.len() >= 32 && received(s, msg, fresh, now).1 == Ok::<
                        Seq<u8>,
                        RecvAction,
                    >(inner.skip(32)) && r.next == array_of::<32>(#[trigger] inner.take(32))
            }
            &&& remote != s.remote_key_seq && waits ==> {
                &&& r.current == s.current && r.next == s.next
                &&& r.recv_keys == s.recv_keys && r.send_keys == s.send_keys && r.next_keys
                    == s.next_keys
                &&& r.recv_nonce == s.recv_nonce
                &&& r.rotated == s.rotated
                &&& local == s.local_key_seq ==> r.next_send_nonce == nonce && r.next_recv_nonce
                    == s.next_recv_nonce
                &&& local != s.local_key_seq ==> r.next_recv_nonce == nonce && r.next_send_nonce
                    == s.next_send_nonce
            }
        },
{
    let (remote, local, nonce, sealed) = parse_header(msg)->0;
    let slot = slot_of(s, remote, local)->0;
    let inner = box_opened(
        slot_public(s, slot),
        slot_secret(s, slot),
        nonce_bytes(nonce),
        sealed,
    )->0;
    let key = inner.take(32);
}

/// A handshake is taken only if it is whole and signed: it has one hundred and ninety-three bytes, its
/// box opens with our key, and the sender signed what is in it, together with the key that the box was
/// made with. What it says is then what was signed.
pub proof fn lemma_handshake_is_signed(
    data: Seq<u8>,
    our_curve: CurvePrivateKey,
    from: PublicKey,
)
    requires
        opened_init(data, our_curve, from) is Ok,
    ensures
        data.len() == 193,
        box_opened(
            array_of::<32>(data.subrange(1, 33)),
            our_curve,
            nonce_bytes(0),
            data.subrange(33, 193),
        ) matches Some(p) && {
            &&& ed25519_accepts(
                from@,
                data.subrange(1, 33) + p.subrange(64, 144),
                p.subrange(0, 64),
            )
            &&& p.len() >= 144 ==> {
                let i = opened_init(data, our_curve, from)->Ok_0;
                &&& i.current@ == p.subrange(64, 96)
                &&& i.next@ == p.subrange(96, 128)
                &&& i.key_seq == be_value(p.subrange(128, 136))
                &&& i.seq == be_value(p.subrange(136, 144))
            }
        },
{
    let p = box_opened(
        array_of::<32>(data.subrange(1, 33)),
        our_curve,
        nonce_bytes(0),
        data.subrange(33, 193),
    )->0;
    if p.len() >= 144 {
        let b = p.subrange(64, 144);
        assert(b.subrange(0, 32) =~= p.subrange(64, 96));
        assert(b.subrange(32, 64) =~= p.subrange(96, 128));
        assert(b.subrange(64, 72) =~= p.subrange(128, 136));
        assert(b.subrange(72, 80) =~= p.subrange(136, 144));
        crate::wire::lemma_array_holds::<32>(p.subrange(64, 96));
        crate::wire::lemma_array_holds::<32>(p.subrange(96, 128));
        crate::bytes::lemma_be_bound(p.subrange(128, 136));
        crate::bytes::lemma_be_bound(p.subrange(136, 144));
        crate::bytes::lemma_pow256_values();
    }
}

} // verus!
