//! Authenticated boxes: curve25519 key agreement with XSalsa20-Poly1305.
use vstd::prelude::*;
use crate::bytes::{append_be, be_bytes, lemma_be_len, take_array, PublicKey};
use crate::crypto::ed25519_public;
use crypto_box::aead::Aead;
use rand::RngCore;

verus! {

/// A curve25519 public key.
pub type CurvePublicKey = [u8; 32];

/// A curve25519 private key.
pub type CurvePrivateKey = [u8; 32];

/// What a box adds to the length of its message.
pub const BOX_OVERHEAD: usize = 16;

/// The curve25519 public key that belongs to a private key.
pub uninterp spec fn curve25519_public(secret: [u8; 32]) -> [u8; 32];

/// The curve25519 private key made of an ed25519 secret key.
pub uninterp spec fn curve_secret_of(secret: [u8; 32]) -> [u8; 32];

/// The curve25519 public key made of an ed25519 public key, if that is a point of the curve.
pub uninterp spec fn curve_public_of(key: [u8; 32]) -> Option<[u8; 32]>;

/// The box around a message for the owner of `public`, from the owner of `secret`.
pub uninterp spec fn box_sealed(
    public: [u8; 32],
    secret: [u8; 32],
    nonce: Seq<u8>,
    msg: Seq<u8>,
) -> Seq<u8>;

/// What is in a box that the owner of `public` made for the owner of `secret`, if it is one.
pub uninterp spec fn box_opened(
    public: [u8; 32],
    secret: [u8; 32],
    nonce: Seq<u8>,
    sealed: Seq<u8>,
) -> Option<Seq<u8>>;

/// Calls `crypto_box::SecretKey::from_bytes` and `public_key`: the public key is a function of
/// the private key alone.
#[verifier::external_body]
pub(crate) fn curve_public_key(secret: &[u8; 32]) -> (r: [u8; 32])
    ensures
        r == curve25519_public(*secret),
{
    crypto_box::SecretKey::from_bytes(*secret).public_key().to_bytes()
}

/// Calls `ed25519_dalek::SigningKey::to_scalar_bytes`: the private key is a function of the
/// secret key alone.
#[verifier::external_body]
pub(crate) fn curve_private_key(secret: &[u8; 32]) -> (r: [u8; 32])
    ensures
        r == curve_secret_of(*secret),
{
    ed25519_dalek::SigningKey::from_bytes(secret).to_scalar_bytes()
}

/// Calls `ed25519_dalek::VerifyingKey::from_bytes` and `to_montgomery`: the curve25519 key is a
/// function of the ed25519 key alone, there is none where that is no point of the curve, and
/// that of an ed25519 key pair belongs to the private key that `to_scalar_bytes` gives.
#[verifier::external_body]
pub(crate) fn curve_key_of(key: &[u8; 32]) -> (r: Option<[u8; 32]>)
    ensures
        r == curve_public_of(*key),
        forall|s: [u8; 32]|
            key@ == #[trigger] ed25519_public(s@) ==> r == Some(
                curve25519_public(curve_secret_of(s)),
            ),
{
    match ed25519_dalek::VerifyingKey::from_bytes(key) {
        Ok(k) => Some(k.to_montgomery().to_bytes()),
        Err(_) => None,
    }
}

/// Calls `crypto_box::SalsaBox::new` and its `encrypt`: the box is a function of keys, nonce and
/// message, sixteen bytes longer than the message, and the owner of the recipient's key opens it
/// with the sender's key and the same nonce. Without associated data the call has no error.
#[verifier::external_body]
pub(crate) fn seal(public: &[u8; 32], secret: &[u8; 32], nonce: &[u8; 24], msg: &[u8]) -> (r: Option<Vec<u8>>)
    ensures
        r matches Some(sealed) && sealed@ == box_sealed(*public, *secret, nonce@, msg@)
            && sealed@.len() == msg@.len() + 16 && forall|theirs: [u8; 32]|
            *public == #[trigger] curve25519_public(theirs) ==> box_opened(
                curve25519_public(*secret),
                theirs,
                nonce@,
                sealed@,
            ) == Some(msg@),
{
    let secret = crypto_box::SecretKey::from_bytes(*secret);
    let salsa = crypto_box::SalsaBox::new(&crypto_box::PublicKey::from_bytes(*public), &secret);
    match salsa.encrypt(&crypto_box::Nonce::from(*nonce), msg) {
        Ok(sealed) => Some(sealed),
        Err(_) => None,
    }
}

/// Calls `crypto_box::SalsaBox::new` and its `decrypt`: what is in the box, or that it is none,
/// is a function of keys, nonce and box, and a message is sixteen bytes shorter than its box.
#[verifier::external_body]
pub(crate) fn open_box(public: &[u8; 32], secret: &[u8; 32], nonce: &[u8; 24], sealed: &[u8]) -> (r: Option<Vec<u8>>)
    ensures
        match r {
            Some(msg) => box_opened(*public, *secret, nonce@, sealed@) == Some(msg@)
                && sealed@.len() == msg@.len() + 16,
            None => box_opened(*public, *secret, nonce@, sealed@) is None,
        },
{
    let secret = crypto_box::SecretKey::from_bytes(*secret);
    let salsa = crypto_box::SalsaBox::new(&crypto_box::PublicKey::from_bytes(*public), &secret);
    match salsa.decrypt(&crypto_box::Nonce::from(*nonce), sealed) {
        Ok(msg) => Some(msg),
        Err(_) => None,
    }
}

/// Calls `rand::rngs::OsRng::fill_bytes`: the key is drawn at random, so nothing is said of it.
#[verifier::external_body]
pub(crate) fn random_secret() -> (r: [u8; 32])
{
    let mut key = [0u8; 32];
    rand::rngs::OsRng.fill_bytes(&mut key);
    key
}

/// The bytes of the nonce with a number: sixteen zeros, then the number, high byte first.
pub open spec fn nonce_bytes(n: u64) -> Seq<u8> {
    Seq::new(16, |i: int| 0u8) + be_bytes(n as nat, 8)
}

/// The nonce with a number.
pub fn nonce_for(n: u64) -> (r: [u8; 24])
    ensures
        r@ == nonce_bytes(n),
{
    let mut v: Vec<u8> = Vec::new();
    let mut i: usize = 0;
    while i < 16
        invariant
            i <= 16,
            v@ == Seq::new(i as nat, |j: int| 0u8),
        decreases 16 - i,
    {
        v.push(0);
        i = i + 1;
        assert(v@ =~= Seq::new(i as nat, |j: int| 0u8));
    }
    append_be(&mut v, n, 8);
    proof {
        lemma_be_len(n as nat, 8);
    }
    let r = take_array::<24>(v.as_slice(), 0);
    assert(r@ =~= nonce_bytes(n));
    r
}

/// Two numbers have different nonces.
pub proof fn lemma_nonce_injective(a: u64, b: u64)
    requires
        nonce_bytes(a) == nonce_bytes(b),
    ensures
        a == b,
{
    lemma_be_len(a as nat, 8);
    lemma_be_len(b as nat, 8);
    crate::bytes::lemma_pow256_values();
    crate::bytes::lemma_be_round_trip(a as nat, 8);
    crate::bytes::lemma_be_round_trip(b as nat, 8);
    assert(nonce_bytes(a).subrange(16, 24) =~= be_bytes(a as nat, 8));
    assert(nonce_bytes(b).subrange(16, 24) =~= be_bytes(b as nat, 8));
}

/// A curve25519 key pair.
#[derive(Clone, Copy)]
pub struct BoxKeys {
    pub public: CurvePublicKey,
    pub secret: CurvePrivateKey,
}

/// The key pair of a private key.
pub open spec fn keys_of(secret: CurvePrivateKey) -> BoxKeys {
    BoxKeys { public: curve25519_public(secret), secret }
}

/// The key pair of a private key.
pub fn box_keys(secret: CurvePrivateKey) -> (r: BoxKeys)
    ensures
        r == keys_of(secret),
{
    let public = curve_public_key(&secret);
    BoxKeys { public, secret }
}

/// A key pair drawn at random.
pub fn new_box_keys() -> (r: BoxKeys)
    ensures
        r == keys_of(r.secret),
{
    box_keys(random_secret())
}

/// The private key for boxes made of a node's secret key.
pub fn ed25519_private_to_curve25519(secret: &[u8; 32]) -> (r: CurvePrivateKey)
    ensures
        r == curve_secret_of(*secret),
{
    curve_private_key(secret)
}

/// The public key for boxes made of a node's public key, if that is a point of the curve.
pub fn ed25519_public_to_curve25519(key: &PublicKey) -> (r: Option<CurvePublicKey>)
    ensures
        r == curve_public_of(*key),
        forall|s: [u8; 32]|
            key@ == #[trigger] ed25519_public(s@) ==> r == Some(
                curve25519_public(curve_secret_of(s)),
            ),
{
    curve_key_of(key)
}

/// Closes a box around a message, with a numbered nonce.
pub fn box_seal(msg: &[u8], n: u64, public: &CurvePublicKey, secret: &CurvePrivateKey) -> (r: Option<
    Vec<u8>,
>)
    ensures
        r matches Some(sealed) && sealed@ == box_sealed(*public, *secret, nonce_bytes(n), msg@)
            && sealed@.len() == msg@.len() + 16 && forall|theirs: [u8; 32]|
            *public == #[trigger] curve25519_public(theirs) ==> box_opened(
                curve25519_public(*secret),
                theirs,
                nonce_bytes(n),
                sealed@,
            ) == Some(msg@),
{
    seal(public, secret, &nonce_for(n), msg)
}

/// Opens a box closed with a numbered nonce.
pub fn box_open(sealed: &[u8], n: u64, public: &CurvePublicKey, secret: &CurvePrivateKey) -> (r:
    Option<Vec<u8>>)
    ensures
        match r {
            Some(msg) => box_opened(*public, *secret, nonce_bytes(n), sealed@) == Some(msg@)
                && sealed@.len() == msg@.len() + 16,
            None => box_opened(*public, *secret, nonce_bytes(n), sealed@) is None,
        },
{
    open_box(public, secret, &nonce_for(n), sealed)
}

} // verus!
