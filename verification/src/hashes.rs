//! BLAKE2b hashes.
use vstd::prelude::*;
use blake2::digest::Mac;
use blake2::Digest;

verus! {

/// The unkeyed BLAKE2b-512 hash of data.
pub uninterp spec fn blake2b_512(data: Seq<u8>) -> Seq<u8>;

/// The keyed BLAKE2b-512 hash of data.
pub uninterp spec fn blake2b_mac_512(key: Seq<u8>, data: Seq<u8>) -> Seq<u8>;

/// Calls `blake2::Blake2b512::digest`: the hash is a function of the data.
#[verifier::external_body]
pub(crate) fn unkeyed_hash(data: &[u8]) -> (r: [u8; 64])
    ensures
        r@ == blake2b_512(data@),
{
    blake2::Blake2b512::digest(data).into()
}

/// Calls `blake2::Blake2bMac512` on a key of no more than sixty-four bytes, which it always
/// accepts: the hash is a function of key and data.
#[verifier::external_body]
pub(crate) fn keyed_hash(key: &[u8], data: &[u8]) -> (r: [u8; 64])
    requires
        key@.len() <= 64,
    ensures
        r@ == blake2b_mac_512(key@, data@),
{
    let mut mac = blake2::Blake2bMac512::new_from_slice(key).expect("a short key");
    blake2::digest::Update::update(&mut mac, data);
    mac.finalize().into_bytes().into()
}

/// The longest password that a hash can be keyed with.
pub const MAX_PASSWORD_LEN: usize = 64;

/// The hash of data, keyed with a password if there is one.
pub open spec fn password_hash(data: Seq<u8>, password: Seq<u8>) -> Seq<u8> {
    if password.len() == 0 {
        blake2b_512(data)
    } else {
        blake2b_mac_512(password, data)
    }
}

/// The hash of data, keyed with a password if there is one.
pub fn blake2b_hash(data: &[u8], password: &[u8]) -> (r: [u8; 64])
    requires
        password@.len() <= MAX_PASSWORD_LEN,
    ensures
        r@ == password_hash(data@, password@),
{
    if password.len() == 0 {
        unkeyed_hash(data)
    } else {
        keyed_hash(password, data)
    }
}

} // verus!
