use ed25519_dalek::SigningKey;
use rcgen::{CertificateParams, KeyPair};
use yggdrasil::crypto::Crypto;
use yggdrasil::tls::{
    ed25519_key, extract_ed25519_pubkey_from_cert, generate_self_signed_cert, renewal_due,
    CERT_AGE_DAYS, CERT_DAYS, DAY, FIRST_SECOND, LAST_SECOND, RENEWAL_DAYS,
};
use yggdrasil::types::Moment;

const NOW: i64 = 1_760_000_000;

fn at(secs: i64, nanos: u32) -> Moment {
    Moment { secs, nanos }
}

#[test]
fn test_ed25519_cert_contains_node_pubkey() {
    let signing_key = SigningKey::from_bytes(&[42u8; 32]);
    let expected_pubkey = signing_key.verifying_key().to_bytes();

    let material = generate_self_signed_cert(&[42u8; 32], at(NOW, 0)).unwrap();

    let extracted = extract_ed25519_pubkey_from_cert(&material.cert_der)
        .expect("should extract ed25519 pubkey from cert");
    assert_eq!(extracted, expected_pubkey);
}

#[test]
fn test_extract_from_non_ed25519_cert_returns_none() {
    let mut params = CertificateParams::new(vec!["test".to_string()]).unwrap();
    params.not_before = time::OffsetDateTime::now_utc() - time::Duration::days(1);
    params.not_after = time::OffsetDateTime::now_utc() + time::Duration::days(1);

    let key_pair = KeyPair::generate().unwrap();
    let cert = params.self_signed(&key_pair).unwrap();
    let cert_der = cert.der().as_ref();

    let result = extract_ed25519_pubkey_from_cert(cert_der);
    assert!(result.is_none(), "ECDSA cert should not yield an ed25519 pubkey");
}

#[test]
fn certificates_are_made_at_any_time() {
    let key = Crypto::new([3u8; 32]).public_key;
    let half_century = -631152000;
    for now in [
        0,
        half_century,
        half_century - DAY,
        FIRST_SECOND + CERT_AGE_DAYS * DAY,
        LAST_SECOND - CERT_DAYS * DAY,
    ] {
        let material = generate_self_signed_cert(&[3u8; 32], at(now, 5)).unwrap();
        assert_eq!(extract_ed25519_pubkey_from_cert(&material.cert_der), Some(key));
        assert_eq!(material.expiry, at(now + CERT_DAYS * DAY, 5));
    }
}

#[test]
fn certificates_are_renewed_in_time() {
    let material = generate_self_signed_cert(&[1u8; 32], at(NOW, 7)).unwrap();
    let end = material.expiry;
    assert_eq!(end, at(NOW + CERT_DAYS * DAY, 7));
    assert!(!material.private_key_der.is_empty());
    assert!(!renewal_due(end, at(NOW, 7)));
    // Eleven days before the end, to the nanosecond.
    let turn = end.secs - (RENEWAL_DAYS + 1) * DAY;
    assert!(!renewal_due(end, at(turn, 6)));
    assert!(!renewal_due(end, at(turn, 7)));
    assert!(renewal_due(end, at(turn, 8)));
    assert!(renewal_due(end, at(end.secs + DAY, 0)));
}

#[test]
fn keys_of_other_kinds_are_none() {
    assert!(extract_ed25519_pubkey_from_cert(b"no certificate").is_none());
    assert_eq!(ed25519_key(&[0x2b, 0x65, 0x70], &[9; 32]), Some([9; 32]));
    assert_eq!(ed25519_key(&[0x2b, 0x65, 0x70], &[9; 31]), None);
    assert_eq!(ed25519_key(&[0x2b, 0x65, 0x71], &[9; 32]), None);
}
