//! The metadata that two nodes exchange when a link is made.
use vstd::prelude::*;
use crate::boxes::{curve_key_of, curve_public_of};
use crate::bytes::{
    append, append_be, be_bytes, be_value, lemma_be_len, lemma_be_round_trip, lemma_pow256_values,
    read_be, take_array, PublicKey,
};
use crate::crypto::{
    ed25519_accepts, ed25519_public, ed25519_signature, sign_with_key, verify_signature,
};
use crate::hashes::{blake2b_hash, password_hash, MAX_PASSWORD_LEN};
use crate::wire::{array_of, lemma_array_of};

verus! {

/// The protocol that we speak.
pub const PROTOCOL_VERSION_MAJOR: u16 = 0;

/// The oldest minor version that we accept, which is the one that we speak.
pub const PROTOCOL_VERSION_MINOR: u16 = 5;

const META_VERSION_MAJOR: u16 = 0;

const META_VERSION_MINOR: u16 = 1;

const META_PUBLIC_KEY: u16 = 2;

const META_PRIORITY: u16 = 3;

const SIGNATURE_SIZE: usize = 64;

/// What can be wrong with metadata.
#[derive(Clone, Copy, Debug, PartialEq, Eq, Structural)]
pub enum VersionError {
    /// It does not start with the preamble.
    InvalidPreamble,
    /// It has no room for a signature.
    TooShort,
    /// The signature is not valid for the key and the password.
    BadSignature,
    /// The version is not one that we accept.
    IncompatibleVersion(u16, u16),
    /// A field has a length that it cannot have.
    InvalidLength,
    /// The key is no point of the curve.
    InvalidKey,
    /// It ends too early.
    Io,
}

/// The metadata of a node.
#[derive(Clone, Copy, Debug, PartialEq, Eq)]
pub struct Metadata {
    pub major_ver: u16,
    pub minor_ver: u16,
    pub public_key: PublicKey,
    pub priority: u8,
}

/// The preamble: the letters `meta`.
pub open spec fn preamble() -> Seq<u8> {
    seq![109u8, 101, 116, 97]
}

/// A field: its number, its length and its content.
pub open spec fn field_bytes(id: u16, content: Seq<u8>) -> Seq<u8> {
    be_bytes(id as nat, 2) + be_bytes(content.len(), 2) + content
}

/// The fields of metadata.
pub open spec fn meta_fields(m: Metadata) -> Seq<u8> {
    field_bytes(0, be_bytes(m.major_ver as nat, 2)) + field_bytes(
        1,
        be_bytes(m.minor_ver as nat, 2),
    ) + field_bytes(2, m.public_key@) + field_bytes(3, seq![m.priority])
}

/// Metadata signed by the owner of a secret key: the preamble, the length of what follows, the
/// fields, and the signature on the hash of the public key under the password.
pub open spec fn meta_bytes(m: Metadata, secret: [u8; 32], password: Seq<u8>) -> Seq<u8> {
    preamble() + be_bytes(117, 2) + meta_fields(m) + ed25519_signature(
        secret@,
        password_hash(m.public_key@, password),
    )
}

/// The metadata with a field taken over. Fields with other numbers are skipped.
pub open spec fn field_taken(m: Metadata, id: nat, content: Seq<u8>) -> Option<Metadata> {
    if id == 0 {
        if content.len() == 2 {
            Some(Metadata { major_ver: be_value(content) as u16, ..m })
        } else {
            None
        }
    } else if id == 1 {
        if content.len() == 2 {
            Some(Metadata { minor_ver: be_value(content) as u16, ..m })
        } else {
            None
        }
    } else if id == 2 {
        if content.len() == 32 {
            Some(Metadata { public_key: array_of::<32>(content), ..m })
        } else {
            None
        }
    } else if id == 3 {
        if content.len() == 1 {
            Some(Metadata { priority: content[0], ..m })
        } else {
            None
        }
    } else {
        Some(m)
    }
}

/// The metadata with all fields taken over, if each has a length that it can have.
pub open spec fn fields_taken(m: Metadata, s: Seq<u8>) -> Option<Metadata>
    decreases s.len(),
{
    if s.len() == 0 {
        Some(m)
    } else if s.len() < 4 {
        None
    } else {
        let id = be_value(s.subrange(0, 2));
        let len = be_value(s.subrange(2, 4));
        if 4 + len > s.len() {
            None
        } else {
            match field_taken(m, id, s.subrange(4, (4 + len) as int)) {
                None => None,
                Some(n) => fields_taken(n, s.skip((4 + len) as int)),
            }
        }
    }
}

/// The metadata in front of any field.
pub open spec fn meta_default() -> Metadata {
    Metadata {
        major_ver: PROTOCOL_VERSION_MAJOR,
        minor_ver: PROTOCOL_VERSION_MINOR,
        public_key: array_of::<32>(Seq::new(32, |i: int| 0u8)),
        priority: 0,
    }
}

/// The length that a header announces.
pub open spec fn parse_meta_header(header: Seq<u8>) -> Result<nat, VersionError> {
    if header.take(4) != preamble() {
        Err(VersionError::InvalidPreamble)
    } else if be_value(header.subrange(4, 6)) < 64 {
        Err(VersionError::TooShort)
    } else {
        Ok(be_value(header.subrange(4, 6)))
    }
}

/// The metadata in a body: the fields, then the signature, which must be valid under the key
/// that the fields give and the password.
pub open spec fn parse_meta_body(body: Seq<u8>, password: Seq<u8>) -> Result<
    Metadata,
    VersionError,
> {
    let n = body.len() - 64;
    match fields_taken(meta_default(), body.take(n)) {
        None => Err(VersionError::InvalidLength),
        Some(m) => if ed25519_accepts(
            m.public_key@,
            password_hash(m.public_key@, password),
            body.skip(n),
        ) {
            Ok(m)
        } else if curve_public_of(m.public_key) is None {
            Err(VersionError::InvalidKey)
        } else {
            Err(VersionError::BadSignature)
        },
    }
}

/// The metadata in front of `s`.
pub open spec fn parse_meta(s: Seq<u8>, password: Seq<u8>) -> Result<Metadata, VersionError> {
    if s.len() < 6 {
        Err(VersionError::Io)
    } else {
        match parse_meta_header(s.take(6)) {
            Err(e) => Err(e),
            Ok(len) => if s.len() < 6 + len {
                Err(VersionError::Io)
            } else {
                parse_meta_body(s.subrange(6, (6 + len) as int), password)
            },
        }
    }
}

proof fn lemma_field(m: Metadata, id: u16, content: Seq<u8>, rest: Seq<u8>)
    requires
        content.len() < 0x1_0000,
    ensures
        fields_taken(m, field_bytes(id, content) + rest) == (match field_taken(
            m,
            id as nat,
            content,
        ) {
            None => None,
            Some(n) => fields_taken(n, rest),
        }),
{
    let s = field_bytes(id, content) + rest;
    lemma_be_len(id as nat, 2);
    lemma_be_len(content.len(), 2);
    lemma_pow256_values();
    lemma_be_round_trip(id as nat, 2);
    lemma_be_round_trip(content.len(), 2);
    assert(s.subrange(0, 2) =~= be_bytes(id as nat, 2));
    assert(s.subrange(2, 4) =~= be_bytes(content.len(), 2));
    assert(s.subrange(4, 4 + content.len() as int) =~= content);
    assert(s.skip(4 + content.len() as int) =~= rest);
}

/// Reading the fields of metadata gives the metadata.
pub proof fn lemma_fields_round_trip(m: Metadata)
    ensures
        meta_fields(m).len() == 53,
        fields_taken(meta_default(), meta_fields(m)) == Some(m),
{
    lemma_be_len(m.major_ver as nat, 2);
    lemma_be_len(m.minor_ver as nat, 2);
    lemma_pow256_values();
    lemma_be_round_trip(m.major_ver as nat, 2);
    lemma_be_round_trip(m.minor_ver as nat, 2);
    lemma_be_len(0, 2);
    lemma_be_len(1, 2);
    lemma_be_len(2, 2);
    lemma_be_len(3, 2);
    lemma_be_len(32, 2);
    lemma_array_of(m.public_key);
    let f0 = field_bytes(0, be_bytes(m.major_ver as nat, 2));
    let f1 = field_bytes(1, be_bytes(m.minor_ver as nat, 2));
    let f2 = field_bytes(2, m.public_key@);
    let f3 = field_bytes(3, seq![m.priority]);
    let m0 = meta_default();
    let m1 = Metadata { major_ver: m.major_ver, ..m0 };
    let m2 = Metadata { minor_ver: m.minor_ver, ..m1 };
    let m3 = Metadata { public_key: m.public_key, ..m2 };
    assert(meta_fields(m) =~= f0 + (f1 + (f2 + (f3 + Seq::<u8>::empty()))));
    lemma_field(m0, 0, be_bytes(m.major_ver as nat, 2), f1 + (f2 + (f3 + Seq::<u8>::empty())));
    lemma_field(m1, 1, be_bytes(m.minor_ver as nat, 2), f2 + (f3 + Seq::<u8>::empty()));
    lemma_field(m2, 2, m.public_key@, f3 + Seq::<u8>::empty());
    lemma_field(m3, 3, seq![m.priority], Seq::empty());
}

fn append_field(out: &mut Vec<u8>, id: u16, content: &[u8])
    requires
        content@.len() < 0x1_0000,
    ensures
        final(out)@ == old(out)@ + field_bytes(id, content@),
{
    append_be(out, id as u64, 2);
    append_be(out, content.len() as u64, 2);
    append(out, content);
    assert(out@ =~= old(out)@ + field_bytes(id, content@));
}

fn be_pair(v: u16) -> (r: Vec<u8>)
    ensures
        r@ == be_bytes(v as nat, 2),
        r@.len() == 2,
{
    proof {
        lemma_be_len(v as nat, 2);
    }
    let mut r: Vec<u8> = Vec::new();
    append_be(&mut r, v as u64, 2);
    assert(r@ =~= be_bytes(v as nat, 2));
    r
}

impl Metadata {
    /// Metadata of a node that speaks our protocol.
    pub fn new(public_key: PublicKey, priority: u8) -> (r: Self)
        ensures
            r == (Metadata {
                major_ver: PROTOCOL_VERSION_MAJOR,
                minor_ver: PROTOCOL_VERSION_MINOR,
                public_key,
                priority,
            }),
    {
        Metadata {
            major_ver: PROTOCOL_VERSION_MAJOR,
            minor_ver: PROTOCOL_VERSION_MINOR,
            public_key,
            priority,
        }
    }

    /// Whether we can talk to the node: the same major version, and a minor version no older
    /// than ours.
    pub fn check(&self) -> (r: bool)
        ensures
            r == (self.major_ver == PROTOCOL_VERSION_MAJOR && self.minor_ver
                >= PROTOCOL_VERSION_MINOR),
    {
        self.major_ver == PROTOCOL_VERSION_MAJOR && self.minor_ver >= PROTOCOL_VERSION_MINOR
    }

    /// Whether the node speaks exactly our version.
    pub fn is_exact_match(&self) -> (r: bool)
        ensures
            r == (self.major_ver == PROTOCOL_VERSION_MAJOR && self.minor_ver
                == PROTOCOL_VERSION_MINOR),
    {
        self.major_ver == PROTOCOL_VERSION_MAJOR && self.minor_ver == PROTOCOL_VERSION_MINOR
    }

    /// The signed form. Who knows the password reads it back where the key is the signer's own.
    pub fn encode(&self, secret: &[u8; 32], password: &[u8]) -> (r: Vec<u8>)
        requires
            password@.len() <= MAX_PASSWORD_LEN,
        ensures
            r@ == meta_bytes(*self, *secret, password@),
            r@.len() == 123,
            self.public_key@ == ed25519_public(secret@) ==> parse_meta(r@, password@) == Ok::<
                Metadata,
                VersionError,
            >(*self),
    {
        let mut out: Vec<u8> = Vec::new();
        out.push(109);
        out.push(101);
        out.push(116);
        out.push(97);
        assert(out@ =~= preamble());
        append_be(&mut out, 117, 2);
        append_field(&mut out, META_VERSION_MAJOR, be_pair(self.major_ver).as_slice());
        append_field(&mut out, META_VERSION_MINOR, be_pair(self.minor_ver).as_slice());
        append_field(&mut out, META_PUBLIC_KEY, self.public_key.as_slice());
        let mut priority: Vec<u8> = Vec::new();
        priority.push(self.priority);
        assert(priority@ =~= seq![self.priority]);
        append_field(&mut out, META_PRIORITY, priority.as_slice());
        let hash = blake2b_hash(self.public_key.as_slice(), password);
        let sig = sign_with_key(secret, hash.as_slice());
        append(&mut out, sig.as_slice());
        proof {
            lemma_fields_round_trip(*self);
            lemma_be_len(117, 2);
            lemma_pow256_values();
            lemma_be_round_trip(117, 2);
            assert(out@ =~= meta_bytes(*self, *secret, password@));
            let s = out@;
            assert(s.take(6).take(4) =~= preamble());
            assert(s.take(6).subrange(4, 6) =~= be_bytes(117, 2));
            let body = s.subrange(6, 123);
            assert(body.take(53) =~= meta_fields(*self));
            assert(body.skip(53) =~= sig@);
        }
        out
    }

    /// The length that a header announces.
    pub fn decode_header(header: &[u8; 6]) -> (r: Result<usize, VersionError>)
        ensures
            match r {
                Ok(n) => parse_meta_header(header@) == Ok::<nat, VersionError>(n as nat) && 64 <= n
                    < 0x1_0000,
                Err(e) => parse_meta_header(header@) == Err::<nat, VersionError>(e),
            },
    {
        let is_meta: bool = header[0] == 109 && header[1] == 101 && header[2] == 116 && header[3]
            == 97;
        proof {
            lemma_pow256_values();
            if is_meta {
                assert(header@.take(4) =~= preamble());
            } else {
                assert(header@.take(4)[0] == header@[0]);
                assert(header@.take(4)[1] == header@[1]);
                assert(header@.take(4)[2] == header@[2]);
                assert(header@.take(4)[3] == header@[3]);
            }
        }
        if !is_meta {
            return Err(VersionError::InvalidPreamble);
        }
        let length: u64 = read_be(header.as_slice(), 4, 2);
        if length < 64 {
            return Err(VersionError::TooShort);
        }
        Ok(length as usize)
    }

    /// The metadata in a body.
    pub fn decode_body(body: &[u8], password: &[u8]) -> (r: Result<Self, VersionError>)
        requires
            body@.len() >= 64,
            password@.len() <= MAX_PASSWORD_LEN,
        ensures
            r == parse_meta_body(body@, password@),
    {
        let n: usize = body.len() - SIGNATURE_SIZE;
        let sig = take_array::<64>(body, n);
        assert(sig@ =~= body@.skip(n as int));
        let mut meta = Metadata {
            major_ver: PROTOCOL_VERSION_MAJOR,
            minor_ver: PROTOCOL_VERSION_MINOR,
            public_key: [0u8; 32],
            priority: 0,
        };
        proof {
            lemma_array_of(meta.public_key);
            assert(meta.public_key@ =~= Seq::new(32, |i: int| 0u8));
        }
        let ghost fields = body@.take(n as int);
        let mut pos: usize = 0;
        assert(fields.skip(0) =~= fields);
        while n - pos >= 4
            invariant
                pos <= n,
                n + 64 == body@.len(),
                fields == body@.take(n as int),
                fields_taken(meta_default(), fields) == fields_taken(meta, fields.skip(pos as int)),
            decreases n - pos,
        {
            let id: u64 = read_be(body, pos, 2);
            let len: u64 = read_be(body, pos + 2, 2);
            let ghost rest = fields.skip(pos as int);
            proof {
                lemma_pow256_values();
                assert(rest.subrange(0, 2) =~= body@.subrange(pos as int, pos + 2));
                assert(rest.subrange(2, 4) =~= body@.subrange(pos + 2, pos + 4));
            }
            let size: usize = len as usize;
            pos = pos + 4;
            if size > n - pos {
                return Err(VersionError::InvalidLength);
            }
            let content = vstd::slice::slice_subrange(body, pos, pos + size);
            assert(content@ =~= rest.subrange(4, 4 + len));
            match meta.take_field(id, content) {
                Some(m) => {
                    meta = m;
                },
                None => {
                    return Err(VersionError::InvalidLength);
                },
            }
            pos = pos + size;
            assert(rest.skip(4 + len) =~= fields.skip(pos as int));
        }
        if pos != n {
            assert(fields.skip(pos as int).len() == n - pos);
            return Err(VersionError::InvalidLength);
        }
        assert(fields.skip(pos as int) =~= Seq::empty());
        let hash = blake2b_hash(meta.public_key.as_slice(), password);
        if verify_signature(&meta.public_key, hash.as_slice(), &sig) {
            return Ok(meta);
        }
        match curve_key_of(&meta.public_key) {
            None => Err(VersionError::InvalidKey),
            Some(_) => Err(VersionError::BadSignature),
        }
    }

    fn take_field(&self, id: u64, content: &[u8]) -> (r: Option<Self>)
        ensures
            r == field_taken(*self, id as nat, content@),
    {
        let mut m = *self;
        proof {
            lemma_pow256_values();
            assert(content@.subrange(0, content@.len() as int) =~= content@);
        }
        if id == 0 {
            if content.len() != 2 {
                return None;
            }
            m.major_ver = read_be(content, 0, 2) as u16;
        } else if id == 1 {
            if content.len() != 2 {
                return None;
            }
            m.minor_ver = read_be(content, 0, 2) as u16;
        } else if id == 2 {
            if content.len() != 32 {
                return None;
            }
            m.public_key = take_array::<32>(content, 0);
            proof {
                lemma_array_of(m.public_key);
                assert(m.public_key@ =~= content@);
            }
        } else if id == 3 {
            if content.len() != 1 {
                return None;
            }
            m.priority = content[0];
        }
        Some(m)
    }

    /// The metadata in front of data.
    pub fn decode(data: &[u8], password: &[u8]) -> (r: Result<Self, VersionError>)
        requires
            password@.len() <= MAX_PASSWORD_LEN,
        ensures
            r == parse_meta(data@, password@),
    {
        if data.len() < 6 {
            return Err(VersionError::Io);
        }
        let header = take_array::<6>(data, 0);
        assert(header@ =~= data@.take(6));
        let length: usize = match Self::decode_header(&header) {
            Ok(n) => n,
            Err(e) => {
                return Err(e);
            },
        };
        if data.len() - 6 < length {
            return Err(VersionError::Io);
        }
        let body = vstd::slice::slice_subrange(data, 6, 6 + length);
        Self::decode_body(body, password)
    }
}

/// Metadata is only accepted with a signature that is valid under its own key and the password.
pub proof fn lemma_accepted_is_signed(s: Seq<u8>, password: Seq<u8>)
    requires
        parse_meta(s, password) is Ok,
    ensures
        ({
            let m = parse_meta(s, password)->Ok_0;
            exists|sig: Seq<u8>| #[trigger]
                ed25519_accepts(m.public_key@, password_hash(m.public_key@, password), sig)
        }),
{
    let m = parse_meta(s, password)->Ok_0;
    let len = parse_meta_header(s.take(6))->Ok_0;
    let body = s.subrange(6, (6 + len) as int);
    assert(ed25519_accepts(
        m.public_key@,
        password_hash(m.public_key@, password),
        body.skip(body.len() - 64),
    ));
}

/// A header is the letters `meta` and a length of at least sixty-four; anything else is refused.
pub proof fn lemma_header_is_read(header: Seq<u8>)
    requires
        header.len() == 6,
    ensures
        ({
            let meta = header[0] == 109 && header[1] == 101 && header[2] == 116 && header[3] == 97;
            let n = 256 * header[4] + header[5];
            &&& meta && n >= 64 ==> parse_meta_header(header) == Ok::<nat, VersionError>(n as nat)
            &&& meta && n < 64 ==> parse_meta_header(header) == Err::<nat, VersionError>(
                VersionError::TooShort,
            )
            &&& !meta ==> parse_meta_header(header) == Err::<nat, VersionError>(
                VersionError::InvalidPreamble,
            )
        }),
{
    let s = header.subrange(4, 6);
    lemma_pow256_values();
    reveal_with_fuel(be_value, 3);
    assert(s.drop_last() =~= seq![header[4]]);
    assert(s.drop_last().drop_last() =~= Seq::empty());
    assert(be_value(s) == 256 * header[4] + header[5]);
    let p = header.take(4);
    let meta = header[0] == 109 && header[1] == 101 && header[2] == 116 && header[3] == 97;
    if meta {
        assert(p =~= preamble());
    } else {
        assert(p[0] == header[0] && p[1] == header[1] && p[2] == header[2] && p[3] == header[3]);
        let q = preamble();
        assert(q[0] == 109 && q[1] == 101 && q[2] == 116 && q[3] == 97);
    }
}

/// What a node says of itself is what the other reads, where both have one password: every field, with
/// whatever value, survives the wire.
pub proof fn lemma_metadata_survives_the_wire(m: Metadata, secret: [u8; 32], password: Seq<u8>)
    requires
        ({
            let sig = ed25519_signature(secret@, password_hash(m.public_key@, password));
            &&& sig.len() == 64
            &&& ed25519_accepts(m.public_key@, password_hash(m.public_key@, password), sig)
        }),
    ensures
        meta_bytes(m, secret, password).len() == 123,
        parse_meta(meta_bytes(m, secret, password), password) == Ok::<Metadata, VersionError>(m),
        parse_meta_header(meta_bytes(m, secret, password).take(6)) == Ok::<nat, VersionError>(117),
        parse_meta_body(meta_bytes(m, secret, password).skip(6), password) == Ok::<
            Metadata,
            VersionError,
        >(m),
{
    let sig = ed25519_signature(secret@, password_hash(m.public_key@, password));
    let s = meta_bytes(m, secret, password);
    lemma_fields_round_trip(m);
    lemma_be_len(117, 2);
    lemma_pow256_values();
    lemma_be_round_trip(117, 2);
    assert(s.take(6).take(4) =~= preamble());
    assert(s.take(6).subrange(4, 6) =~= be_bytes(117, 2));
    let body = meta_fields(m) + sig;
    assert(s.subrange(6, 123) =~= body);
    assert(s.skip(6) =~= body);
    assert(body.take(body.len() - 64) =~= meta_fields(m));
    assert(body.skip(body.len() - 64) =~= sig);
}

/// Fields with numbers that we do not know are passed over, wherever they stand first.
pub proof fn lemma_unknown_fields_are_passed_over(
    m: Metadata,
    id: u16,
    content: Seq<u8>,
    rest: Seq<u8>,
)
    requires
        id > 3,
        content.len() < 0x1_0000,
    ensures
        fields_taken(m, field_bytes(id, content) + rest) == fields_taken(m, rest),
{
    lemma_field(m, id, content, rest);
}

/// Fields are taken in turn, each for what it says: a version of two bytes, a key of thirty-two, a
/// priority of one, the last one of a kind counting. A known field of another length, or one that is
/// cut off, spoils them all.
pub proof fn lemma_fields_are_taken_in_turn(m: Metadata, id: u16, content: Seq<u8>, rest: Seq<u8>)
    requires
        content.len() < 0x1_0000,
    ensures
        ({
            let taken = fields_taken(m, field_bytes(id, content) + rest);
            &&& id == 0 && content.len() == 2 ==> taken == fields_taken(
                Metadata { major_ver: (256 * content[0] + content[1]) as u16, ..m },
                rest,
            )
            &&& id == 1 && content.len() == 2 ==> taken == fields_taken(
                Metadata { minor_ver: (256 * content[0] + content[1]) as u16, ..m },
                rest,
            )
            &&& id == 2 && content.len() == 32 ==> exists|key: [u8; 32]| #[trigger]
                key@ == content && taken == fields_taken(Metadata { public_key: key, ..m }, rest)
            &&& id == 3 && content.len() == 1 ==> taken == fields_taken(
                Metadata { priority: content[0], ..m },
                rest,
            )
            &&& id <= 1 && content.len() != 2 ==> taken is None
            &&& id == 2 && content.len() != 32 ==> taken is None
            &&& id == 3 && content.len() != 1 ==> taken is None
        }),
        0 < rest.len() < 4 ==> fields_taken(m, rest) is None,
        fields_taken(m, Seq::empty()) == Some(m),
        forall|n: int|
            0 < n < 4 + content.len() ==> fields_taken(
                m,
                (#[trigger] field_bytes(id, content).take(n)),
            ) is None,
{
    lemma_field(m, id, content, rest);
    if content.len() == 2 {
        reveal_with_fuel(be_value, 3);
    }
    if content.len() == 32 {
        crate::wire::lemma_array_holds::<32>(content);
    }
    let f = field_bytes(id, content);
    crate::bytes::lemma_pow256_values();
    crate::bytes::lemma_be_len(id as nat, 2);
    crate::bytes::lemma_be_len(content.len(), 2);
    crate::bytes::lemma_be_round_trip(content.len(), 2);
    assert forall|n: int| 0 < n < 4 + content.len() implies fields_taken(
        m,
        (#[trigger] f.take(n)),
    ) is None by {
        let s = f.take(n);
        if n >= 4 {
            assert(s.subrange(2, 4) =~= be_bytes(content.len(), 2));
        }
    }
}

/// What is told is why metadata is refused: one that ends too early, one whose fields are spoilt, one
/// whose key is none, and one that the key in it did not sign for the password.
pub proof fn lemma_why_metadata_is_refused(s: Seq<u8>, password: Seq<u8>)
    ensures
        s.len() < 6 ==> parse_meta(s, password) == Err::<Metadata, VersionError>(VersionError::Io),
        s.len() >= 6 && parse_meta_header(s.take(6)) is Ok ==> {
            let n = 256 * s[4] + s[5];
            let body = s.subrange(6, 6 + n);
            &&& s.len() < 6 + n ==> parse_meta(s, password) == Err::<Metadata, VersionError>(
                VersionError::Io,
            )
            &&& s.len() >= 6 + n ==> match fields_taken(meta_default(), body.take(n - 64)) {
                None => parse_meta(s, password) == Err::<Metadata, VersionError>(
                    VersionError::InvalidLength,
                ),
                Some(m) => {
                    let good = ed25519_accepts(
                        m.public_key@,
                        password_hash(m.public_key@, password),
                        body.skip(n - 64),
                    );
                    &&& good ==> parse_meta(s, password) == Ok::<Metadata, VersionError>(m)
                    &&& !good && curve_public_of(m.public_key) is None ==> parse_meta(s, password)
                        == Err::<Metadata, VersionError>(VersionError::InvalidKey)
                    &&& !good && curve_public_of(m.public_key) is Some ==> parse_meta(s, password)
                        == Err::<Metadata, VersionError>(VersionError::BadSignature)
                },
            }
        },
{
    if s.len() >= 6 {
        let h = s.take(6);
        lemma_header_is_read(h);
    }
}

} // verus!
