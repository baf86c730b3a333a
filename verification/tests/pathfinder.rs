use ed25519_dalek::SigningKey;
use rand::rngs::OsRng;
use yggdrasil::crypto::Crypto;
use yggdrasil::pathfinder::{OwnPathInfo, PathInfo, Pathfinder};
use yggdrasil::traffic::TrafficPacket;

const SECOND: u64 = 1_000_000_000;

fn make_crypto() -> Crypto {
    Crypto::new(SigningKey::generate(&mut OsRng).to_bytes())
}

fn some_path(now: u64) -> PathInfo {
    PathInfo {
        path: vec![1, 2],
        seq: 1,
        req_time: now,
        last_refresh: now,
        cached_traffic: None,
        broken: false,
    }
}

#[test]
fn pathfinder_new() {
    let crypto = make_crypto();
    let pf = Pathfinder::new(&crypto);
    assert!(pf.paths.is_empty());
    assert!(pf.rumors.is_empty());
}

#[test]
fn own_path_info_sign_and_verify() {
    let crypto = make_crypto();
    let mut info = OwnPathInfo::new();
    info.seq = 42;
    info.path = vec![1, 2, 3];
    info.sign(&crypto);

    let bytes = info.bytes_for_sig();
    assert!(Crypto::verify(&crypto.public_key, &bytes, &info.sig));
}

#[test]
fn throttle_lookup() {
    let crypto = make_crypto();
    let mut pf = Pathfinder::new(&crypto);
    let dest = [1u8; 32];
    let throttle = SECOND;
    let now = 100 * SECOND;

    assert!(!pf.should_throttle_lookup(&dest, throttle, now));

    pf.paths.insert(dest, some_path(now));

    assert!(pf.should_throttle_lookup(&dest, throttle, now));
    assert!(!pf.should_throttle_lookup(&dest, throttle, now + SECOND));
}

#[test]
fn accept_notify_new_path() {
    let crypto = make_crypto();
    let mut pf = Pathfinder::new(&crypto);
    let source = [1u8; 32];
    let xformed = [1u8; 32];

    let (accepted, traffic) = pf.accept_notify(source, xformed, 1, vec![1, 2], 0);
    assert!(!accepted);
    assert!(traffic.is_none());

    pf.ensure_rumor(xformed, 0);
    let (accepted, traffic) = pf.accept_notify(source, xformed, 1, vec![1, 2], 0);
    assert!(accepted);
    assert!(traffic.is_none());
    assert!(pf.paths.contains_key(&source));
    assert_eq!(pf.paths.get(&source).unwrap().path, vec![1, 2]);
}

#[test]
fn handle_broken() {
    let crypto = make_crypto();
    let mut pf = Pathfinder::new(&crypto);
    let dest = [1u8; 32];

    pf.paths.insert(dest, some_path(0));

    assert!(pf.get_path(&dest).is_some());
    pf.handle_broken(&dest);
    assert!(pf.get_path(&dest).is_none());
}

#[test]
fn the_bytes_to_sign_are_number_and_path() {
    let mut info = OwnPathInfo::new();
    info.seq = 300;
    info.path = vec![1, 200];
    assert_eq!(info.bytes_for_sig(), vec![0xac, 0x02, 1, 0xc8, 0x01, 0]);
}

#[test]
fn an_older_notify_changes_nothing() {
    let crypto = make_crypto();
    let mut pf = Pathfinder::new(&crypto);
    let key = [9u8; 32];
    pf.ensure_rumor(key, 0);
    assert!(pf.accept_notify(key, key, 5, vec![7], 0).0);
    assert!(!pf.accept_notify(key, key, 5, vec![8], 0).0);
    assert!(!pf.accept_notify(key, key, 4, vec![8], 0).0);
    assert_eq!(pf.get_path(&key).unwrap(), &[7][..]);
    assert!(pf.accept_notify(key, key, 6, vec![8], 0).0);
    assert_eq!(pf.get_path(&key).unwrap(), &[8][..]);
}

#[test]
fn traffic_waits_with_the_rumor() {
    let crypto = make_crypto();
    let mut pf = Pathfinder::new(&crypto);
    let key = [3u8; 32];
    pf.ensure_rumor(key, 0);
    pf.cache_rumor_traffic(&key, TrafficPacket::new([1; 32], key, b"later".to_vec()));
    let (accepted, traffic) = pf.accept_notify(key, key, 1, vec![4], 0);
    assert!(accepted);
    assert_eq!(traffic.unwrap().payload, b"later");
}

#[test]
fn what_is_not_refreshed_is_forgotten() {
    let crypto = make_crypto();
    let mut pf = Pathfinder::new(&crypto);
    pf.paths.insert([1; 32], some_path(0));
    pf.paths.insert([2; 32], some_path(0));
    pf.reset_timeout(&[2; 32], 30 * SECOND);
    pf.cleanup_expired(60 * SECOND, 61 * SECOND);
    assert!(!pf.paths.contains_key(&[1; 32]));
    assert!(pf.paths.contains_key(&[2; 32]));
}
