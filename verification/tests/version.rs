use ed25519_dalek::SigningKey;
use rand::rngs::OsRng;
use yggdrasil::crypto::Crypto;
use yggdrasil::hashes::blake2b_hash;
use yggdrasil::version::{Metadata, VersionError, PROTOCOL_VERSION_MAJOR, PROTOCOL_VERSION_MINOR};

fn make_key() -> ([u8; 32], [u8; 32]) {
    let secret = SigningKey::generate(&mut OsRng).to_bytes();
    (secret, Crypto::new(secret).public_key)
}

#[test]
fn test_encode_decode_no_password() {
    let (secret, public_key) = make_key();

    let meta = Metadata::new(public_key, 0);
    let encoded = meta.encode(&secret, b"");

    assert_eq!(&encoded[..4], b"meta");

    let decoded = Metadata::decode(&encoded, b"").unwrap();
    assert_eq!(decoded.major_ver, PROTOCOL_VERSION_MAJOR);
    assert_eq!(decoded.minor_ver, PROTOCOL_VERSION_MINOR);
    assert_eq!(decoded.public_key, public_key);
    assert_eq!(decoded.priority, 0);
    assert!(decoded.check());
}

#[test]
fn test_encode_decode_with_password() {
    let (secret, public_key) = make_key();

    let meta = Metadata::new(public_key, 5);
    let password = b"test-password";
    let encoded = meta.encode(&secret, password);

    let decoded = Metadata::decode(&encoded, password).unwrap();
    assert_eq!(decoded.priority, 5);
    assert_eq!(decoded.public_key, public_key);
}

#[test]
fn test_decode_wrong_password_fails() {
    let (secret, public_key) = make_key();

    let meta = Metadata::new(public_key, 0);
    let encoded = meta.encode(&secret, b"correct");

    let result = Metadata::decode(&encoded, b"wrong");
    assert!(result.is_err());
}

#[test]
fn test_check_valid() {
    let meta = Metadata::new([1u8; 32], 0);
    assert!(meta.check());
}

#[test]
fn test_check_invalid_version() {
    let mut meta = Metadata::new([1u8; 32], 0);
    meta.major_ver = 1;
    assert!(!meta.check());
}

#[test]
fn damaged_metadata_is_refused() {
    let (secret, public_key) = make_key();
    let encoded = Metadata::new(public_key, 0).encode(&secret, b"");
    assert_eq!(encoded.len(), 123);

    let mut bad = encoded.clone();
    bad[0] = b'M';
    assert!(matches!(Metadata::decode(&bad, b""), Err(VersionError::InvalidPreamble)));

    let mut short = encoded.clone();
    short[4] = 0;
    short[5] = 63;
    assert!(matches!(Metadata::decode(&short, b""), Err(VersionError::TooShort)));

    assert!(matches!(Metadata::decode(&encoded[..100], b""), Err(VersionError::Io)));

    let mut forged = encoded.clone();
    forged[122] ^= 1;
    assert!(matches!(Metadata::decode(&forged, b""), Err(VersionError::BadSignature)));
}

#[test]
fn the_header_says_how_much_follows() {
    let mut header = [0u8; 6];
    header[..4].copy_from_slice(b"meta");
    header[5] = 117;
    assert!(matches!(Metadata::decode_header(&header), Ok(117)));
}

#[test]
fn any_minor_version_is_acceptable_but_only_one_is_exact() {
    let mut meta = Metadata::new([1u8; 32], 0);
    assert!(meta.is_exact_match());
    meta.minor_ver = 4;
    assert!(!meta.is_exact_match());
}

#[test]
fn hashes_depend_on_data_and_password() {
    let plain = blake2b_hash(b"data", b"");
    assert_ne!(plain, blake2b_hash(b"Data", b""));
    assert_ne!(plain, blake2b_hash(b"data", b"x"));
    assert_ne!(blake2b_hash(b"data", b"y"), blake2b_hash(b"data", b"x"));
    assert_eq!(
        hex::encode(&blake2b_hash(b"abc", b"")[..8]),
        "ba80a53f981c4d0d"
    );
}
