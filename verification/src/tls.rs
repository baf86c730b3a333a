//! The certificates with which links are encrypted.
use vstd::prelude::*;
use crate::bytes::{take_array, PublicKey};
use crate::crypto::ed25519_public;
use crate::texts::{hex_encode, hex_text};
use crate::types::{Moment, SECOND_NS};
use ed25519_dalek::pkcs8::EncodePrivateKey;

verus! {

/// The number of the algorithm of ed25519 keys, 1.3.101.112, in its encoded form.
pub open spec fn ed25519_oid() -> Seq<u8> {
    seq![43u8, 101, 112]
}

/// The algorithm and the public key in an X.509 certificate.
pub uninterp spec fn certificate_key(der: Seq<u8>) -> Option<(Seq<u8>, Seq<u8>)>;

/// Calls `x509_parser::parse_x509_certificate`: whether it is a certificate, and the algorithm
/// and the bytes of its public key, are a function of the bytes.
#[verifier::external_body]
pub(crate) fn read_certificate_key(der: &[u8]) -> (r: Option<(Vec<u8>, Vec<u8>)>)
    ensures
        match r {
            Some((oid, key)) => certificate_key(der@) == Some((oid@, key@)),
            None => certificate_key(der@) is None,
        },
{
    let (_, cert) = x509_parser::parse_x509_certificate(der).ok()?;
    let spki = &cert.tbs_certificate.subject_pki;
    Some((spki.algorithm.algorithm.as_bytes().to_vec(), spki.subject_public_key.data.to_vec()))
}

/// The first second of the year 0, before which no certificate can start.
pub const FIRST_SECOND: i64 = -62167219200;

/// The last second of the year 9999, after which no certificate can end.
pub const LAST_SECOND: i64 = 253402300799;

/// The certificate that rcgen makes for a node's secret key with a name and times, and the
/// private key that goes with it, if it makes one.
pub uninterp spec fn certificate_for(
    secret: Seq<u8>,
    name: Seq<char>,
    from: i64,
    to: i64,
) -> Option<(Seq<u8>, Seq<u8>)>;

/// Calls `rcgen::CertificateParams::self_signed` with the node's key and the given name and
/// times, in seconds since the epoch: certificate and private key are a function of these, since
/// the serial number is a hash of the key and ed25519 signatures draw nothing at random. The
/// public key in the certificate is the node's.
#[verifier::external_body]
pub(crate) fn self_signed(secret: &[u8; 32], name: &String, from: i64, to: i64) -> (r: Option<
    (Vec<u8>, Vec<u8>),
>)
    requires
        FIRST_SECOND <= from <= LAST_SECOND,
        FIRST_SECOND <= to <= LAST_SECOND,
    ensures
        match r {
            Some((cert, key)) => certificate_for(secret@, name@, from, to) == Some((cert@, key@))
                && certificate_key(cert@) == Some((ed25519_oid(), ed25519_public(secret@))),
            None => certificate_for(secret@, name@, from, to) is None,
        },
{
    let mut params = rcgen::CertificateParams::new(vec![name.clone()]).ok()?;
    params.not_before = time::OffsetDateTime::from_unix_timestamp(from).ok()?;
    params.not_after = time::OffsetDateTime::from_unix_timestamp(to).ok()?;
    let pkcs8 = ed25519_dalek::SigningKey::from_bytes(secret).to_pkcs8_der().ok()?;
    let der = rustls::pki_types::PrivatePkcs8KeyDer::from(pkcs8.as_bytes().to_vec());
    let pair = rcgen::KeyPair::from_pkcs8_der_and_sign_algo(&der, &rcgen::PKCS_ED25519).ok()?;
    let cert = params.self_signed(&pair).ok()?;
    Some((cert.der().to_vec(), pair.serialize_der()))
}

/// A certificate, its private key, and when it ends.
#[derive(Debug)]
pub struct TlsCertMaterial {
    pub cert_der: Vec<u8>,
    pub private_key_der: Vec<u8>,
    pub expiry: Moment,
}

/// A day in seconds.
pub const DAY: i64 = 86400;

/// How many days old a new certificate looks.
pub const CERT_AGE_DAYS: i64 = 15;

/// How many days a new certificate lasts.
pub const CERT_DAYS: i64 = 75;

/// A certificate is renewed when it has no more than that many days left.
pub const RENEWAL_DAYS: i64 = 10;

/// Makes a certificate for the node's key, named by its public key in hexadecimal: it starts
/// fifteen days ago and ends in seventy-five, both in whole seconds. The public key in it is the
/// node's.
pub fn generate_self_signed_cert(secret: &[u8; 32], now: Moment) -> (r: Option<TlsCertMaterial>)
    requires
        FIRST_SECOND + CERT_AGE_DAYS * DAY <= now.secs <= LAST_SECOND - CERT_DAYS * DAY,
    ensures
        match (r, certificate_for(
            secret@,
            hex_text(ed25519_public(secret@)),
            (now.secs - CERT_AGE_DAYS * DAY) as i64,
            (now.secs + CERT_DAYS * DAY) as i64,
        )) {
            (Some(m), Some((cert, key))) => m.cert_der@ == cert && m.private_key_der@ == key
                && m.expiry.secs == now.secs + CERT_DAYS * DAY && m.expiry.nanos == now.nanos && key_in(cert) == Some(
                ed25519_public(secret@),
            ),
            (None, None) => true,
            _ => false,
        },
{
    let public = crate::crypto::public_key_of(secret);
    let name = hex_encode(public.as_slice());
    let from: i64 = now.secs - CERT_AGE_DAYS * DAY;
    let to: i64 = now.secs + CERT_DAYS * DAY;
    match self_signed(secret, &name, from, to) {
        Some((cert_der, private_key_der)) => {
            let expiry = Moment { secs: to, nanos: now.nanos };
            Some(TlsCertMaterial { cert_der, private_key_der, expiry })
        },
        None => None,
    }
}

/// The ed25519 public key in a certificate, if it has one.
pub open spec fn key_in(der: Seq<u8>) -> Option<Seq<u8>> {
    match certificate_key(der) {
        None => None,
        Some((oid, key)) => if oid == ed25519_oid() && key.len() == 32 {
            Some(key)
        } else {
            None
        },
    }
}

/// The ed25519 public key of an algorithm and a key.
pub fn ed25519_key(oid: &[u8], key: &[u8]) -> (r: Option<PublicKey>)
    ensures
        match r {
            Some(k) => oid@ == ed25519_oid() && k@ == key@,
            None => oid@ != ed25519_oid() || key@.len() != 32,
        },
{
    let is_ed25519: bool = oid.len() == 3 && oid[0] == 43 && oid[1] == 101 && oid[2] == 112;
    proof {
        if is_ed25519 {
            assert(oid@ =~= ed25519_oid());
        } else if oid@.len() == 3 {
            assert(ed25519_oid()[0] == 43 && ed25519_oid()[1] == 101 && ed25519_oid()[2] == 112);
        }
    }
    if !is_ed25519 || key.len() != 32 {
        return None;
    }
    let k = take_array::<32>(key, 0);
    assert(k@ =~= key@);
    Some(k)
}

/// The ed25519 public key in a certificate, if it has one.
pub fn extract_ed25519_pubkey_from_cert(der: &[u8]) -> (r: Option<PublicKey>)
    ensures
        match r {
            Some(k) => key_in(der@) == Some(k@),
            None => key_in(der@) is None,
        },
{
    match read_certificate_key(der) {
        None => None,
        Some((oid, key)) => ed25519_key(oid.as_slice(), key.as_slice()),
    }
}

/// Whether it is time to renew a certificate: it has no more than ten whole days left.
pub fn renewal_due(expiry: Moment, now: Moment) -> (r: bool)
    ensures
        r == (expiry.total() - now.total() < (RENEWAL_DAYS + 1) * DAY * SECOND_NS),
{
    expiry.since_epoch() - now.since_epoch() < (RENEWAL_DAYS + 1) as i128 * DAY as i128 * SECOND_NS
}

} // verus!
