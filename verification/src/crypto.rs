//! Node identity: ed25519 keys and signatures.
use vstd::prelude::*;
use crate::bytes::{PublicKey, Sig};
use ed25519_dalek::{Signer, Verifier};

verus! {

/// The public key that belongs to an ed25519 secret key.
pub uninterp spec fn ed25519_public(secret: Seq<u8>) -> Seq<u8>;

/// The ed25519 signature that a secret key gives on a message.
pub uninterp spec fn ed25519_signature(secret: Seq<u8>, msg: Seq<u8>) -> Seq<u8>;

/// Whether ed25519 verification accepts a signature on a message under a public key.
pub uninterp spec fn ed25519_accepts(key: Seq<u8>, msg: Seq<u8>, sig: Seq<u8>) -> bool;

/// Calls `ed25519_dalek::SigningKey::from_bytes` and `verifying_key`: the public key is a
/// function of the secret key alone.
#[verifier::external_body]
pub(crate) fn public_key_of(secret: &[u8; 32]) -> (r: PublicKey)
    ensures
        r@ == ed25519_public(secret@),
{
    ed25519_dalek::SigningKey::from_bytes(secret).verifying_key().to_bytes()
}

/// Calls `ed25519_dalek::SigningKey::sign`: the signature is a function of secret key and
/// message, and verification accepts it under the public key of that secret key.
#[verifier::external_body]
pub(crate) fn sign_with_key(secret: &[u8; 32], msg: &[u8]) -> (r: Sig)
    ensures
        r@ == ed25519_signature(secret@, msg@),
        ed25519_accepts(ed25519_public(secret@), msg@, r@),
{
    ed25519_dalek::SigningKey::from_bytes(secret).sign(msg).to_bytes()
}

/// Calls `ed25519_dalek::VerifyingKey::from_bytes` and `verify`: whether the key is a point of
/// the curve and the signature is valid under it is a function of key, message and signature.
#[verifier::external_body]
pub(crate) fn verify_signature(key: &PublicKey, msg: &[u8], sig: &Sig) -> (r: bool)
    ensures
        r == ed25519_accepts(key@, msg@, sig@),
{
    match ed25519_dalek::VerifyingKey::from_bytes(key) {
        Ok(k) => k.verify(msg, &ed25519_dalek::Signature::from_bytes(sig)).is_ok(),
        Err(_) => false,
    }
}

/// The key pair of a node.
pub struct Crypto {
    pub secret: [u8; 32],
    pub public_key: PublicKey,
}

impl Crypto {
    /// The public key belongs to the secret key.
    pub open spec fn wf(&self) -> bool {
        self.public_key@ == ed25519_public(self.secret@)
    }

    /// The key pair of a secret key.
    pub fn new(secret: [u8; 32]) -> (r: Self)
        ensures
            r.wf(),
            r.secret == secret,
    {
        let public_key = public_key_of(&secret);
        Crypto { secret, public_key }
    }

    /// Signs a message.
    pub fn sign(&self, msg: &[u8]) -> (r: Sig)
        ensures
            r@ == ed25519_signature(self.secret@, msg@),
            self.wf() ==> ed25519_accepts(self.public_key@, msg@, r@),
    {
        sign_with_key(&self.secret, msg)
    }

    /// Whether a signature on a message is valid under a public key.
    pub fn verify(key: &PublicKey, msg: &[u8], sig: &Sig) -> (r: bool)
        ensures
            r == ed25519_accepts(key@, msg@, sig@),
    {
        verify_signature(key, msg, sig)
    }
}

} // verus!
