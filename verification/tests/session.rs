use ed25519_dalek::SigningKey;
use rand::rngs::OsRng;
use yggdrasil::boxes::{
    box_keys, box_open, box_seal, ed25519_private_to_curve25519, ed25519_public_to_curve25519,
    new_box_keys, nonce_for,
};
use yggdrasil::crypto::Crypto;
use yggdrasil::discovery::Clock;
use yggdrasil::session::{
    RecvAction, SessionInfo, SessionInit, SESSION_INIT_SIZE, SESSION_TIMEOUT,
    SESSION_TRAFFIC_OVERHEAD, SESSION_TYPE_ACK, SESSION_TYPE_INIT, SESSION_TYPE_TRAFFIC,
};
use yggdrasil::sessions::{accept_write, ConcurrentSessionManager, Identity, OutAction};
use yggdrasil::types::Error;

fn make_keys() -> (Identity, [u8; 32]) {
    let secret = SigningKey::generate(&mut OsRng).to_bytes();
    (Identity::new(secret), Crypto::new(secret).public_key)
}

fn clock(secs: u64) -> Clock {
    Clock { now: secs * 1_000_000_000, unix_secs: secs }
}

#[test]
fn init_encrypt_decrypt() {
    let (a, pub_a) = make_keys();
    let (b, pub_b) = make_keys();

    let current = new_box_keys().public;
    let next = new_box_keys().public;
    let init = SessionInit::new(&current, &next, 0, 1_700_000_000);

    let encrypted = init.encrypt(&a.secret, &pub_b, SESSION_TYPE_INIT).unwrap();
    assert_eq!(encrypted.len(), SESSION_INIT_SIZE);
    assert_eq!(encrypted[0], SESSION_TYPE_INIT);

    let decrypted = SessionInit::decrypt(&encrypted, &b.curve, &pub_a).unwrap();
    assert_eq!(decrypted.current, current);
    assert_eq!(decrypted.next, next);
    assert_eq!(decrypted.key_seq, 0);
    assert_eq!(decrypted.seq, 1_700_000_000);
}

#[test]
fn ack_encrypt_decrypt() {
    let (a, pub_a) = make_keys();
    let (b, pub_b) = make_keys();

    let current = new_box_keys().public;
    let next = new_box_keys().public;
    let init = SessionInit::new(&current, &next, 5, 1);

    let encrypted = init.encrypt(&a.secret, &pub_b, SESSION_TYPE_ACK).unwrap();
    assert_eq!(encrypted[0], SESSION_TYPE_ACK);

    let decrypted = SessionInit::decrypt(&encrypted, &b.curve, &pub_a).unwrap();
    assert_eq!(decrypted.key_seq, 5);
}

#[test]
fn session_send_recv() {
    let (a, pub_a) = make_keys();
    let (b, pub_b) = make_keys();

    let mut mgr_a = ConcurrentSessionManager::new();
    let mut mgr_b = ConcurrentSessionManager::new();
    let t = clock(1_700_000_000);

    let actions = mgr_a.write_to(&pub_b, b"hello from A", &a, t);
    assert_eq!(actions.len(), 1);

    if let OutAction::SendToInner { dest, data } = &actions[0] {
        assert_eq!(*dest, pub_b);
        let b_actions = mgr_b.handle_data(&pub_a, data, &b, t);
        assert!(!b_actions.is_empty());

        for action in &b_actions {
            if let OutAction::SendToInner { dest, data } = action {
                assert_eq!(*dest, pub_a);
                let a_actions = mgr_a.handle_data(&pub_b, data, &a, t);
                for a_action in &a_actions {
                    if let OutAction::SendToInner { dest, data } = a_action {
                        assert_eq!(*dest, pub_b);
                        let b2_actions = mgr_b.handle_data(&pub_a, data, &b, t);
                        for b2_action in &b2_actions {
                            if let OutAction::Deliver { source, data } = b2_action {
                                assert_eq!(*source, pub_a);
                                assert_eq!(data, b"hello from A");
                                return;
                            }
                        }
                    }
                }
            }
        }
    }
    panic!("expected message delivery");
}

fn inner(action: &OutAction) -> Vec<u8> {
    match action {
        OutAction::SendToInner { data, .. } => data.clone(),
        _ => panic!("expected SendToInner"),
    }
}

#[test]
fn session_bidirectional() {
    let (a, pub_a) = make_keys();
    let (b, pub_b) = make_keys();

    let mut mgr_a = ConcurrentSessionManager::new();
    let mut mgr_b = ConcurrentSessionManager::new();
    let t = clock(1_700_000_000);

    let a_actions = mgr_a.write_to(&pub_b, b"msg1", &a, t);
    let init_data = inner(&a_actions[0]);

    let b_actions = mgr_b.handle_data(&pub_a, &init_data, &b, t);
    let ack_data = inner(&b_actions[0]);

    let a_actions2 = mgr_a.handle_data(&pub_b, &ack_data, &a, t);

    for action in &a_actions2 {
        if let OutAction::SendToInner { data, .. } = action {
            let b_recv = mgr_b.handle_data(&pub_a, data, &b, t);
            for ba in &b_recv {
                if let OutAction::Deliver { data, .. } = ba {
                    assert_eq!(data, b"msg1");
                }
            }
        }
    }

    let b_send = mgr_b.write_to(&pub_a, b"msg2", &b, t);
    for action in &b_send {
        if let OutAction::SendToInner { data, .. } = action {
            let a_recv = mgr_a.handle_data(&pub_b, data, &a, t);
            for aa in &a_recv {
                if let OutAction::Deliver { data, .. } = aa {
                    assert_eq!(data, b"msg2");
                    return;
                }
            }
        }
    }
    panic!("expected msg2 delivery");
}

/// Two managers with a session between them.
fn joined() -> (
    ConcurrentSessionManager,
    Identity,
    [u8; 32],
    ConcurrentSessionManager,
    Identity,
    [u8; 32],
    Clock,
) {
    let (a, pub_a) = make_keys();
    let (b, pub_b) = make_keys();
    let mut mgr_a = ConcurrentSessionManager::new();
    let mut mgr_b = ConcurrentSessionManager::new();
    let t = clock(1_700_000_000);
    let init = inner(&mgr_a.write_to(&pub_b, b"first", &a, t)[0]);
    let ack = inner(&mgr_b.handle_data(&pub_a, &init, &b, t)[0]);
    let data = inner(&mgr_a.handle_data(&pub_b, &ack, &a, t)[0]);
    let got = mgr_b.handle_data(&pub_a, &data, &b, t);
    assert!(matches!(&got[0], OutAction::Deliver { data, .. } if data == b"first"));
    (mgr_a, a, pub_a, mgr_b, b, pub_b, t)
}

#[test]
fn many_messages_both_ways_pass_through_rotations() {
    let (mut mgr_a, a, pub_a, mut mgr_b, b, pub_b, mut t) = joined();
    for i in 0..60u8 {
        t.now += 20_000_000_000;
        t.unix_secs += 20;
        let sent = mgr_a.write_to(&pub_b, &[i, 1], &a, t);
        assert_eq!(sent.len(), 1);
        let got = mgr_b.handle_data(&pub_a, &inner(&sent[0]), &b, t);
        assert!(matches!(&got[0], OutAction::Deliver { data, .. } if data[..] == [i, 1]));
        let sent = mgr_b.write_to(&pub_a, &[i, 2], &b, t);
        let got = mgr_a.handle_data(&pub_b, &inner(&sent[0]), &a, t);
        assert!(matches!(&got[0], OutAction::Deliver { data, .. } if data[..] == [i, 2]));
    }
    let info = mgr_a.sessions.get(&pub_b).unwrap();
    assert!(info.local_key_seq > 1, "keys were never rotated");
}

#[test]
fn a_message_is_not_read_twice() {
    let (mut mgr_a, a, pub_a, mut mgr_b, b, pub_b, t) = joined();
    let data = inner(&mgr_a.write_to(&pub_b, b"once", &a, t)[0]);
    let got = mgr_b.handle_data(&pub_a, &data, &b, t);
    assert!(matches!(&got[0], OutAction::Deliver { .. }));
    let again = mgr_b.handle_data(&pub_a, &data, &b, t);
    assert!(!again.iter().any(|x| matches!(x, OutAction::Deliver { .. })));
}

#[test]
fn a_stale_handshake_changes_nothing() {
    let (a, pub_a) = make_keys();
    let (b, pub_b) = make_keys();
    let mut mgr_b = ConcurrentSessionManager::new();
    let t = clock(100);
    let keys = new_box_keys().public;
    let init = SessionInit::new(&keys, &keys, 0, 50);
    let data = init.encrypt(&a.secret, &pub_b, SESSION_TYPE_INIT).unwrap();
    assert_eq!(mgr_b.handle_data(&pub_a, &data, &b, t).len(), 1);
    // The handshake that opened the session is taken over once more, and then never again.
    assert_eq!(mgr_b.handle_data(&pub_a, &data, &b, t).len(), 1);
    assert!(mgr_b.handle_data(&pub_a, &data, &b, t).is_empty());
    let newer = SessionInit::new(&keys, &keys, 0, 51);
    let data = newer.encrypt(&a.secret, &pub_b, SESSION_TYPE_INIT).unwrap();
    assert_eq!(mgr_b.handle_data(&pub_a, &data, &b, t).len(), 1);
}

#[test]
fn handshakes_that_cannot_be_opened() {
    let (a, pub_a) = make_keys();
    let (b, pub_b) = make_keys();
    let keys = new_box_keys().public;
    let init = SessionInit::new(&keys, &keys, 0, 50);
    let mut data = init.encrypt(&a.secret, &pub_b, SESSION_TYPE_INIT).unwrap();
    assert!(SessionInit::decrypt(&data, &a.curve, &pub_a).is_err());
    assert!(SessionInit::decrypt(&data, &b.curve, &pub_b).is_err());
    assert!(SessionInit::decrypt(&data[..100], &b.curve, &pub_a).is_err());
    data[60] ^= 1;
    assert!(SessionInit::decrypt(&data, &b.curve, &pub_a).is_err());
    // Not every number is a point of the curve.
    let mut bad = [0u8; 32];
    bad[0] = 2;
    assert!(ed25519_public_to_curve25519(&bad).is_none());
    assert!(matches!(init.encrypt(&a.secret, &bad, SESSION_TYPE_INIT), Err(Error::BadKey)));
}

#[test]
fn expired_sessions_are_dropped() {
    let (mut mgr_a, _a, _pub_a, _mgr_b, _b, pub_b, t) = joined();
    assert_eq!(mgr_a.get_sessions(t.now).len(), 1);
    assert_eq!(mgr_a.get_sessions(t.now)[0].key, pub_b);
    assert_eq!(mgr_a.get_sessions(t.now)[0].bytes_sent, 5);
    mgr_a.cleanup_expired(t.now + SESSION_TIMEOUT);
    assert_eq!(mgr_a.get_sessions(t.now).len(), 1);
    mgr_a.cleanup_expired(t.now + SESSION_TIMEOUT + 1);
    assert!(mgr_a.get_sessions(t.now).is_empty());
}

#[test]
fn traffic_without_a_session_is_dropped() {
    let (_a, pub_a) = make_keys();
    let (b, _) = make_keys();
    let mut mgr_b = ConcurrentSessionManager::new();
    let mut msg = vec![0u8; 100];
    msg[0] = SESSION_TYPE_TRAFFIC;
    assert!(mgr_b.handle_data(&pub_a, &msg, &b, clock(7)).is_empty());
    assert!(mgr_b.handle_data(&pub_a, &[9, 9], &b, clock(7)).is_empty());
    assert!(mgr_b.handle_data(&pub_a, &[], &b, clock(7)).is_empty());
}

#[test]
fn traffic_that_cannot_be_read_asks_for_a_handshake() {
    let (mut mgr_a, a, pub_a, _mgr_b, b, pub_b, t) = joined();
    let data = inner(&mgr_a.write_to(&pub_b, b"lost", &a, t)[0]);
    // The other node has lost its sessions, and has a new one with other keys.
    let mut fresh = ConcurrentSessionManager::new();
    let keys = new_box_keys().public;
    let init = SessionInit::new(&keys, &keys, 9, 1);
    let msg = init.encrypt(&a.secret, &pub_b, SESSION_TYPE_INIT).unwrap();
    assert_eq!(fresh.handle_data(&pub_a, &msg, &b, t).len(), 1);
    let got = fresh.handle_data(&pub_a, &data, &b, t);
    assert_eq!(got.len(), 1);
    assert_eq!(inner(&got[0])[0], SESSION_TYPE_INIT);
}

#[test]
fn a_short_message_is_dropped() {
    let keys = new_box_keys().public;
    let init = SessionInit::new(&keys, &keys, 0, 5);
    let mut info = SessionInfo::new(&init, 0);
    assert!(matches!(info.do_recv(&[SESSION_TYPE_TRAFFIC, 0, 0], 0), Err(RecvAction::Drop)));
    let sent = info.do_send(b"abc", 0).unwrap();
    assert_eq!(sent[0], SESSION_TYPE_TRAFFIC);
    // Three small numbers take a byte each, and the box adds forty-eight bytes.
    assert_eq!(sent.len(), 1 + 3 + 48 + 3);
    assert!(sent.len() as u64 <= 3 + SESSION_TRAFFIC_OVERHEAD);
    info.handle_update(&SessionInit::new(&keys, &keys, 4, 9), 0);
    assert_eq!((info.seq, info.remote_key_seq, info.local_key_seq), (9, 4, 1));
    assert!(!info.is_expired(SESSION_TIMEOUT));
    assert!(info.is_expired(SESSION_TIMEOUT + 1));
}

#[test]
fn boxes_open_for_the_other_side_only() {
    let a = box_keys([7; 32]);
    let b = new_box_keys();
    let sealed = box_seal(b"secret", 3, &b.public, &a.secret).unwrap();
    assert_eq!(sealed.len(), 6 + 16);
    assert_eq!(box_open(&sealed, 3, &a.public, &b.secret).unwrap(), b"secret");
    assert!(box_open(&sealed, 4, &a.public, &b.secret).is_none());
    let c = new_box_keys();
    assert!(box_open(&sealed, 3, &a.public, &c.secret).is_none());
    assert_eq!(nonce_for(258)[22..], [1, 2]);
}

#[test]
fn the_curve_keys_of_a_node_belong_together() {
    let secret = [42u8; 32];
    let public = Crypto::new(secret).public_key;
    let ours = ed25519_private_to_curve25519(&secret);
    assert_ne!(ours, secret);
    assert_eq!(box_keys(ours).public, ed25519_public_to_curve25519(&public).unwrap());
}

#[test]
fn what_can_be_written_through_a_session() {
    assert!(matches!(accept_write(true, 1000, b"x"), Err(Error::Closed)));
    assert!(matches!(accept_write(false, 1000, &[0; 922]), Err(Error::OversizedMessage)));
    assert!(matches!(accept_write(false, 1000, &[0; 921]), Ok(())));
    assert!(matches!(accept_write(false, 0, &[]), Ok(())));
}
