//! Wire format of the mesh protocol.
//!
//! Numbers are little-endian base-128 varints. A path is a list of non-zero ports closed by
//! a zero. A frame is the varint length of what follows, one type byte, and the payload.
use vstd::prelude::*;
use crate::bytes::{append, take_array, to_vec, PublicKey, Sig};

verus! {

/// Port number of a peer. Zero stands for the root and for the end of a path.
pub type PeerPort = u64;

/// Why a message could not be decoded.
#[derive(Clone, Copy, Debug, PartialEq, Eq, Structural)]
pub enum WireError {
    /// The bytes are not an encoding of the message.
    Decode,
}

// ---------------------------------------------------------------------------
// Varints
// ---------------------------------------------------------------------------

/// The varint encoding of `v`: seven bits per byte, low bits first, high bit set on all but
/// the last byte.
pub open spec fn uvarint(v: u64) -> Seq<u8>
    decreases v,
{
    if v < 128 {
        seq![v as u8]
    } else {
        seq![(v % 128 + 128) as u8] + uvarint(v / 128)
    }
}

/// Reads a varint of which `i` bytes were read already: its value in units of the next byte,
/// and what follows it. At most ten bytes, the tenth at most one.
pub open spec fn uvarint_tail(s: Seq<u8>, i: nat) -> Option<(nat, Seq<u8>)>
    decreases s.len(),
{
    if s.len() == 0 || i > 9 {
        None
    } else if i == 9 && s[0] > 1 {
        None
    } else if s[0] < 128 {
        Some((s[0] as nat, s.drop_first()))
    } else {
        match uvarint_tail(s.drop_first(), i + 1) {
            Some((v, rest)) => Some(((s[0] - 128) as nat + 128 * v, rest)),
            None => None,
        }
    }
}

/// Reads a varint off the front of `s`.
pub open spec fn parse_uvarint(s: Seq<u8>) -> Option<(u64, Seq<u8>)> {
    match uvarint_tail(s, 0) {
        Some((v, rest)) => Some((v as u64, rest)),
        None => None,
    }
}

/// `128` to the power `i`, as a number that the remaining bytes of a varint are scaled by.
pub open spec fn scale(i: nat) -> nat
    decreases i,
{
    if i == 0 {
        1
    } else {
        128 * scale((i - 1) as nat)
    }
}

proof fn lemma_scale_values()
    ensures
        scale(0) == 1,
        scale(9) == 0x8000_0000_0000_0000,
        scale(10) == 0x40_0000_0000_0000_0000,
{
    reveal_with_fuel(scale, 11);
}

proof fn lemma_scale_positive(i: nat)
    ensures
        scale(i) >= 1,
    decreases i,
{
    if i > 0 {
        lemma_scale_positive((i - 1) as nat);
    }
}

proof fn lemma_scale_monotone(i: nat, j: nat)
    requires
        i <= j,
    ensures
        scale(i) <= scale(j),
    decreases j,
{
    if i < j {
        lemma_scale_monotone(i, (j - 1) as nat);
    }
}

/// What a read varint tail can be worth: together with the bytes before it, it fits 64 bits.
proof fn lemma_tail_bound(s: Seq<u8>, i: nat)
    requires
        i <= 9,
    ensures
        uvarint_tail(s, i) matches Some((v, rest)) ==> v * scale(i) + scale(i)
            <= 0x1_0000_0000_0000_0000 && rest.len() < s.len() && rest == s.skip(
            s.len() - rest.len(),
        ),
    decreases s.len(),
{
    lemma_scale_values();
    match uvarint_tail(s, i) {
        Some((v, rest)) => {
            if s[0] < 128 {
                assert(rest =~= s.skip(1));
                lemma_scale_monotone(i, 9);
                if i < 9 {
                    lemma_scale_monotone(i + 1, 9);
                    assert(scale(i + 1) == 128 * scale(i));
                    assert(v * scale(i) + scale(i) <= 128 * scale(i)) by (nonlinear_arith)
                        requires
                            v <= 127,
                            scale(i) >= 0,
                    ;
                } else {
                    assert(v <= 1);
                    assert(v * scale(i) <= 1 * scale(i)) by (nonlinear_arith)
                        requires
                            v <= 1,
                            scale(i) >= 0,
                    ;
                }
            } else {
                assert(i < 9);
                lemma_tail_bound(s.drop_first(), i + 1);
                let (w, r) = uvarint_tail(s.drop_first(), i + 1)->0;
                assert(rest =~= s.skip(s.len() - rest.len()));
                assert(scale(i + 1) == 128 * scale(i));
                let d = (s[0] - 128) as nat;
                assert(v * scale(i) + scale(i) <= w * scale(i + 1) + scale(i + 1)) by (nonlinear_arith)
                    requires
                        v == d + 128 * w,
                        d <= 127,
                        scale(i + 1) == 128 * scale(i),
                        scale(i) >= 0,
                ;
            }
        },
        None => {},
    }
}

/// What is left after a varint is a proper suffix, and nothing of the value is cut off.
pub proof fn lemma_parse_uvarint(s: Seq<u8>)
    ensures
        parse_uvarint(s) matches Some((v, rest)) ==> {
            &&& rest.len() < s.len()
            &&& rest == s.skip(s.len() - rest.len())
            &&& (uvarint_tail(s, 0)->0).0 == v
        },
{
    lemma_tail_bound(s, 0);
    lemma_scale_values();
    match uvarint_tail(s, 0) {
        Some((v, rest)) => {
            assert(v * scale(0) == v);
        },
        None => {},
    }
}

proof fn lemma_uvarint_tail_round_trip(v: u64, rest: Seq<u8>, i: nat)
    requires
        i <= 9,
        v * scale(i) <= u64::MAX,
    ensures
        uvarint_tail(uvarint(v) + rest, i) == Some((v as nat, rest)),
    decreases v,
{
    let s = uvarint(v) + rest;
    lemma_scale_values();
    lemma_scale_positive(i);
    if v < 128 {
        assert(s.drop_first() =~= rest);
        if i == 9 && v > 1 {
            assert(v * scale(i) >= 2 * scale(i)) by (nonlinear_arith)
                requires
                    v >= 2,
                    scale(i) >= 0,
            ;
        }
    } else {
        let b = (v % 128 + 128) as u8;
        assert(s[0] == b);
        assert(s.drop_first() =~= uvarint(v / 128) + rest);
        if i == 9 {
            assert(v * scale(i) >= 128 * scale(i)) by (nonlinear_arith)
                requires
                    v >= 128,
                    scale(i) >= 0,
            ;
        }
        assert(scale(i + 1) == 128 * scale(i));
        assert((v / 128) * scale(i + 1) <= v * scale(i)) by (nonlinear_arith)
            requires
                scale(i + 1) == 128 * scale(i),
                scale(i) >= 0,
        ;
        lemma_uvarint_tail_round_trip(v / 128, rest, i + 1);
    }
}

/// Reading gives back what was written: a varint, whatever follows it.
pub proof fn lemma_uvarint_round_trip(v: u64, rest: Seq<u8>)
    ensures
        parse_uvarint(uvarint(v) + rest) == Some((v, rest)),
{
    lemma_scale_values();
    assert(v * scale(0) == v);
    lemma_uvarint_tail_round_trip(v, rest, 0);
}

/// A varint takes at least one byte and at most ten; nine where the highest bit is not set.
pub proof fn lemma_uvarint_len(v: u64)
    ensures
        1 <= uvarint(v).len() <= 10,
        v < 0x8000_0000_0000_0000 ==> uvarint(v).len() <= 9,
{
    lemma_uvarint_len_within(v, 10);
    if v < 0x8000_0000_0000_0000 {
        assert(scale(9) == 0x8000_0000_0000_0000) by {
            reveal_with_fuel(scale, 10);
        }
        lemma_uvarint_len_within(v, 9);
    }
}

proof fn lemma_uvarint_len_within(v: u64, n: nat)
    requires
        1 <= n,
        n < 10 ==> v < scale(n),
    ensures
        1 <= uvarint(v).len() <= if n < 10 { n } else { 10 },
    decreases v,
{
    lemma_scale_values();
    let m: nat = if n < 10 { n } else { 10 };
    assert(scale(1) == 128) by {
        reveal_with_fuel(scale, 2);
    }
    if v >= 128 {
        assert(m > 1);
        assert(scale(m) == 128 * scale((m - 1) as nat));
        lemma_uvarint_len_within(v / 128, (m - 1) as nat);
    }
}

/// Appends the varint encoding of `value`.
pub fn encode_uvarint(out: &mut Vec<u8>, value: u64)
    ensures
        final(out)@ == old(out)@ + uvarint(value),
{
    let mut v: u64 = value;
    while v >= 128
        invariant
            out@ + uvarint(v) == old(out)@ + uvarint(value),
        decreases v,
    {
        let ghost before = out@;
        let b: u8 = (v % 128 + 128) as u8;
        out.push(b);
        assert(uvarint(v) == seq![b] + uvarint(v / 128));
        assert(out@ + uvarint(v / 128) =~= before + uvarint(v));
        v = v / 128;
    }
    let ghost before = out@;
    out.push(v as u8);
    assert(out@ =~= before + uvarint(v));
}

/// Number of bytes that the varint encoding of `value` takes.
pub fn uvarint_size(value: u64) -> (n: usize)
    ensures
        n == uvarint(value).len(),
        1 <= n <= 10,
{
    proof {
        lemma_uvarint_len(value);
    }
    let mut v: u64 = value;
    let mut n: usize = 1;
    while v >= 128
        invariant
            n + uvarint(v).len() == uvarint(value).len() + 1,
            1 <= n,
            uvarint(value).len() <= 10,
        decreases v,
    {
        assert(uvarint(v) == seq![(v % 128 + 128) as u8] + uvarint(v / 128));
        proof {
            lemma_uvarint_len(v / 128);
        }
        v = v / 128;
        n += 1;
    }
    n
}

/// A varint that is read byte by byte.
pub struct UvarintReader {
    value: u64,
    factor: u64,
    count: u32,
}

/// What a byte fed to a [`UvarintReader`] led to.
#[derive(Clone, Copy, Debug, PartialEq, Eq, Structural)]
pub enum UvarintStep {
    /// The varint goes on.
    More,
    /// The varint is complete.
    Done(u64),
    /// The varint does not fit 64 bits.
    Error,
}

impl UvarintReader {
    /// The value that the bytes read so far stand for, their number and scale are in step.
    pub closed spec fn wf(&self) -> bool {
        &&& self.count <= 9
        &&& self.factor == scale(self.count as nat)
        &&& self.value < self.factor
    }

    /// What the varint comes to if the bytes `s` follow: its value and what is left of `s`.
    pub closed spec fn completed_by(&self, s: Seq<u8>) -> Option<(u64, Seq<u8>)> {
        match uvarint_tail(s, self.count as nat) {
            Some((v, rest)) => Some(((self.value + v * self.factor) as u64, rest)),
            None => None,
        }
    }

    /// A varint that is not complete needs another byte, and some byte completes it.
    pub proof fn lemma_is_not_complete(&self)
        requires
            self.wf(),
        ensures
            self.completed_by(Seq::empty()) is None,
            self.completed_by(seq![0u8]) is Some,
    {
    }

    /// A reader that has seen no byte.
    pub fn new() -> (r: Self)
        ensures
            r.wf(),
            forall|s: Seq<u8>| #[trigger] r.completed_by(s) == parse_uvarint(s),
    {
        let r = UvarintReader { value: 0, factor: 1, count: 0 };
        proof {
            lemma_scale_values();
            assert forall|s: Seq<u8>| #[trigger] r.completed_by(s) == parse_uvarint(s) by {
                lemma_tail_bound(s, 0);
            }
        }
        r
    }

    /// Takes the next byte.
    pub fn feed(&mut self, byte: u8) -> (r: UvarintStep)
        requires
            old(self).wf(),
        ensures
            match r {
                UvarintStep::More => final(self).wf() && forall|s: Seq<u8>| #[trigger]
                    old(self).completed_by(seq![byte] + s) == final(self).completed_by(s),
                UvarintStep::Done(v) => forall|s: Seq<u8>| #[trigger]
                    old(self).completed_by(seq![byte] + s) == Some((v, s)),
                UvarintStep::Error => forall|s: Seq<u8>| #[trigger]
                    old(self).completed_by(seq![byte] + s) is None,
            },
    {
        proof {
            lemma_scale_values();
            lemma_scale_monotone(self.count as nat, 9);
            assert forall|s: Seq<u8>| true implies #[trigger] (seq![byte] + s).drop_first() == s by {
                assert((seq![byte] + s).drop_first() =~= s);
            }
        }
        if self.count >= 9 && byte > 1 {
            return UvarintStep::Error;
        }
        let digit: u64 = (byte % 128) as u64;
        let ghost f = self.factor as int;
        proof {
            if self.count < 9 {
                assert(scale((self.count + 1) as nat) == 128 * scale(self.count as nat));
                lemma_scale_monotone((self.count + 1) as nat, 9);
            }
            assert(digit * f + f <= 128 * f) by (nonlinear_arith)
                requires
                    digit <= 127,
                    f >= 0,
            ;
            if self.count == 9 {
                assert(digit * f <= f) by (nonlinear_arith)
                    requires
                        digit <= 1,
                        f >= 0,
                ;
            }
        }
        let value: u64 = self.value + digit * self.factor;
        if byte < 128 {
            assert(byte as nat * f == digit * f);
            return UvarintStep::Done(value);
        }
        assert(self.count < 9);
        proof {
            let ghost o = *self;
            let c = (self.count + 1) as nat;
            assert forall|s: Seq<u8>| #[trigger] o.completed_by(seq![byte] + s) == (match uvarint_tail(
                s,
                c,
            ) {
                Some((v, rest)) => Some(((value + v * (128 * f)) as u64, rest)),
                None => None,
            }) by {
                match uvarint_tail(s, c) {
                    Some((v, rest)) => {
                        assert(o.value + (digit + 128 * v) * f == value + v * (128 * f)) by (nonlinear_arith)
                            requires
                                value == o.value + digit * f,
                        ;
                    },
                    None => {},
                }
            }
        }
        self.value = value;
        self.factor = self.factor * 128;
        self.count = self.count + 1;
        UvarintStep::More
    }
}

// ---------------------------------------------------------------------------
// Paths
// ---------------------------------------------------------------------------

/// The encoding of a path: the varint of each port, then a zero.
pub open spec fn path_bytes(path: Seq<PeerPort>) -> Seq<u8>
    decreases path.len(),
{
    if path.len() == 0 {
        uvarint(0)
    } else {
        uvarint(path[0]) + path_bytes(path.drop_first())
    }
}

/// Reads a path off the front of `s`: the ports up to the first zero, and what follows it.
pub open spec fn parse_path(s: Seq<u8>) -> Option<(Seq<PeerPort>, Seq<u8>)>
    decreases s.len(),
{
    match parse_uvarint(s) {
        Some((port, rest)) => if port == 0 {
            Some((Seq::empty(), rest))
        } else if rest.len() < s.len() {
            match parse_path(rest) {
                Some((path, end)) => Some((seq![port] + path, end)),
                None => None,
            }
        } else {
            None
        },
        None => None,
    }
}

/// A path that can be written down: the zero that closes it does not occur inside it.
pub open spec fn is_path(path: Seq<PeerPort>) -> bool {
    forall|i: int| 0 <= i < path.len() ==> path[i] != 0
}

/// Reading gives back what was written: a path without zeros, whatever follows it.
pub proof fn lemma_path_round_trip(path: Seq<PeerPort>, rest: Seq<u8>)
    requires
        is_path(path),
    ensures
        parse_path(path_bytes(path) + rest) == Some((path, rest)),
    decreases path.len(),
{
    let s = path_bytes(path) + rest;
    if path.len() == 0 {
        lemma_uvarint_round_trip(0, rest);
        assert(path =~= Seq::empty());
    } else {
        let tail = path_bytes(path.drop_first()) + rest;
        assert(s =~= uvarint(path[0]) + tail);
        lemma_uvarint_round_trip(path[0], tail);
        lemma_parse_uvarint(s);
        lemma_path_round_trip(path.drop_first(), rest);
        assert(path =~= seq![path[0]] + path.drop_first());
    }
}

/// Reading a path never yields a zero, and leaves a proper suffix.
pub proof fn lemma_parse_path(s: Seq<u8>)
    ensures
        parse_path(s) matches Some((path, rest)) ==> {
            &&& is_path(path)
            &&& rest.len() < s.len()
            &&& path.len() < s.len()
        },
    decreases s.len(),
{
    lemma_parse_uvarint(s);
    match parse_uvarint(s) {
        Some((port, rest)) => {
            if port != 0 {
                lemma_parse_path(rest);
            }
        },
        None => {},
    }
}

proof fn lemma_path_bytes_push(path: Seq<PeerPort>, i: int)
    requires
        0 <= i < path.len(),
    ensures
        path_bytes(path.skip(i)) == uvarint(path[i]) + path_bytes(path.skip(i + 1)),
{
    assert(path.skip(i).drop_first() =~= path.skip(i + 1));
}

/// Appends the encoding of a path.
pub fn encode_path(out: &mut Vec<u8>, path: &[PeerPort])
    ensures
        final(out)@ == old(out)@ + path_bytes(path@),
{
    let mut i: usize = 0;
    assert(path@.skip(0) =~= path@);
    while i < path.len()
        invariant
            i <= path.len(),
            out@ + path_bytes(path@.skip(i as int)) == old(out)@ + path_bytes(path@),
        decreases path.len() - i,
    {
        let ghost before = out@;
        encode_uvarint(out, path[i]);
        proof {
            lemma_path_bytes_push(path@, i as int);
            assert(out@ + path_bytes(path@.skip(i + 1)) =~= before + path_bytes(path@.skip(i as int)));
        }
        i += 1;
    }
    encode_uvarint(out, 0);
}

/// Number of bytes that the encoding of a path takes.
pub fn path_size(path: &[PeerPort]) -> (n: usize)
    requires
        path_bytes(path@).len() <= usize::MAX,
    ensures
        n == path_bytes(path@).len(),
{
    let mut i: usize = 0;
    let mut n: usize = 0;
    assert(path@.skip(0) =~= path@);
    while i < path.len()
        invariant
            i <= path.len(),
            n + path_bytes(path@.skip(i as int)).len() == path_bytes(path@).len(),
            path_bytes(path@).len() <= usize::MAX,
        decreases path.len() - i,
    {
        proof {
            lemma_path_bytes_push(path@, i as int);
        }
        n += uvarint_size(path[i]);
        i += 1;
    }
    n + uvarint_size(0)
}

/// A path takes at least one byte, and at most ten for each port and one more.
pub proof fn lemma_path_size(path: Seq<PeerPort>)
    ensures
        path.len() + 1 <= path_bytes(path).len() <= 10 * path.len() + 1,
    decreases path.len(),
{
    if path.len() > 0 {
        lemma_uvarint_len(path[0]);
        lemma_path_size(path.drop_first());
    }
}

// ---------------------------------------------------------------------------
// Reading messages
// ---------------------------------------------------------------------------

/// Reads `n` bytes off the front of `s`.
pub open spec fn parse_bytes(s: Seq<u8>, n: int) -> Option<(Seq<u8>, Seq<u8>)> {
    if s.len() >= n {
        Some((s.take(n), s.skip(n)))
    } else {
        None
    }
}

/// Reading gives back what was written: a byte string of known length.
pub proof fn lemma_bytes_round_trip(b: Seq<u8>, rest: Seq<u8>)
    ensures
        parse_bytes(b + rest, b.len() as int) == Some((b, rest)),
{
    assert((b + rest).take(b.len() as int) =~= b);
    assert((b + rest).skip(b.len() as int) =~= rest);
}

/// Reads the fields of a message one after the other.
pub struct WireReader<'a> {
    data: &'a [u8],
    pos: usize,
}

impl<'a> WireReader<'a> {
    /// The position lies within the bytes.
    pub closed spec fn wf(&self) -> bool {
        self.pos <= self.data@.len()
    }

    /// What has not been read yet.
    pub closed spec fn rest(&self) -> Seq<u8> {
        self.data@.skip(self.pos as int)
    }

    /// A reader at the start of `data`.
    pub fn new(data: &'a [u8]) -> (r: Self)
        ensures
            r.wf(),
            r.rest() == data@,
    {
        let r = WireReader { data, pos: 0 };
        assert(r.rest() =~= data@);
        r
    }

    /// Whether everything has been read.
    pub fn is_done(&self) -> (r: bool)
        requires
            self.wf(),
        ensures
            r == (self.rest().len() == 0),
    {
        self.pos >= self.data.len()
    }

    /// Reads a varint.
    pub fn read_uvarint(&mut self) -> (r: Result<u64, WireError>)
        requires
            old(self).wf(),
        ensures
            final(self).wf(),
            match parse_uvarint(old(self).rest()) {
                Some((v, rest)) => r == Ok::<u64, WireError>(v) && final(self).rest() == rest,
                None => r is Err,
            },
    {
        let ghost start = self.rest();
        let mut u = UvarintReader::new();
        loop
            invariant
                self.wf(),
                u.wf(),
                u.completed_by(self.rest()) == parse_uvarint(start),
                start == old(self).rest(),
            decreases self.data@.len() - self.pos,
        {
            if self.pos >= self.data.len() {
                return Err(WireError::Decode);
            }
            let byte: u8 = self.data[self.pos];
            let ghost here = self.rest();
            self.pos = self.pos + 1;
            assert(here =~= seq![byte] + self.rest());
            match u.feed(byte) {
                UvarintStep::More => {},
                UvarintStep::Done(v) => {
                    return Ok(v);
                },
                UvarintStep::Error => {
                    return Err(WireError::Decode);
                },
            }
        }
    }

    /// Reads a path.
    pub fn read_path(&mut self) -> (r: Result<Vec<PeerPort>, WireError>)
        requires
            old(self).wf(),
        ensures
            final(self).wf(),
            match parse_path(old(self).rest()) {
                Some((path, rest)) => r matches Ok(p) && p@ == path && final(self).rest() == rest,
                None => r is Err,
            },
    {
        let ghost start = self.rest();
        let mut path: Vec<PeerPort> = Vec::new();
        loop
            invariant
                self.wf(),
                start == old(self).rest(),
                parse_path(start) == (match parse_path(self.rest()) {
                    Some((p, rest)) => Some((path@ + p, rest)),
                    None => None,
                }),
            decreases self.rest().len(),
        {
            let ghost here = self.rest();
            proof {
                lemma_parse_uvarint(here);
            }
            match self.read_uvarint() {
                Ok(port) => {
                    if port == 0 {
                        assert(path@ + Seq::<u64>::empty() =~= path@);
                        return Ok(path);
                    }
                    let ghost so_far = path@;
                    path.push(port);
                    proof {
                        match parse_path(self.rest()) {
                            Some((p, rest)) => {
                                assert(so_far + (seq![port] + p) =~= path@ + p);
                            },
                            None => {},
                        }
                    }
                },
                Err(e) => {
                    return Err(e);
                },
            }
        }
    }

    /// Reads an array of bytes.
    pub fn read_array<const N: usize>(&mut self) -> (r: Result<[u8; N], WireError>)
        requires
            old(self).wf(),
        ensures
            final(self).wf(),
            match parse_bytes(old(self).rest(), N as int) {
                Some((b, rest)) => r matches Ok(a) && a@ == b && final(self).rest() == rest,
                None => r is Err,
            },
    {
        if self.data.len() - self.pos < N {
            return Err(WireError::Decode);
        }
        let a = take_array::<N>(self.data, self.pos);
        let ghost here = self.rest();
        self.pos = self.pos + N;
        assert(a@ =~= here.take(N as int));
        assert(self.rest() =~= here.skip(N as int));
        Ok(a)
    }

    /// Reads everything that is left.
    pub fn read_rest(&mut self) -> (r: Vec<u8>)
        requires
            old(self).wf(),
        ensures
            final(self).wf(),
            r@ == old(self).rest(),
            final(self).rest().len() == 0,
    {
        let n: usize = self.data.len();
        let r = to_vec(vstd::slice::slice_subrange(self.data, self.pos, n));
        assert(r@ =~= self.rest());
        self.pos = n;
        r
    }
}

// ---------------------------------------------------------------------------
// Messages
// ---------------------------------------------------------------------------

/// A request to countersign a tree position.
#[derive(Clone, Copy, Debug, PartialEq, Eq, Structural)]
pub struct SigReq {
    pub seq: u64,
    pub nonce: u64,
}

impl SigReq {
    /// The encoding: seq, nonce.
    pub open spec fn bytes(&self) -> Seq<u8> {
        uvarint(self.seq) + uvarint(self.nonce)
    }

    /// Appends the encoding.
    pub fn encode(&self, out: &mut Vec<u8>)
        ensures
            final(out)@ == old(out)@ + self.bytes(),
    {
        encode_uvarint(out, self.seq);
        encode_uvarint(out, self.nonce);
        assert(out@ =~= old(out)@ + self.bytes());
    }

    /// Reads a request off the reader.
    pub fn decode(r: &mut WireReader) -> (res: Result<SigReq, WireError>)
        requires
            old(r).wf(),
        ensures
            final(r).wf(),
            match parse_sig_req(old(r).rest()) {
                Some((m, rest)) => res == Ok::<SigReq, WireError>(m) && final(r).rest() == rest,
                None => res is Err,
            },
    {
        let seq: u64 = r.read_uvarint()?;
        let nonce: u64 = r.read_uvarint()?;
        Ok(SigReq { seq, nonce })
    }
}

/// Reads a request off the front of `s`.
pub open spec fn parse_sig_req(s: Seq<u8>) -> Option<(SigReq, Seq<u8>)> {
    match parse_uvarint(s) {
        None => None,
        Some((seq, s1)) => match parse_uvarint(s1) {
            None => None,
            Some((nonce, s2)) => Some((SigReq { seq, nonce }, s2)),
        },
    }
}

/// Reading gives back the request that was written.
pub proof fn lemma_sig_req_round_trip(m: SigReq, rest: Seq<u8>)
    ensures
        parse_sig_req(m.bytes() + rest) == Some((m, rest)),
{
    assert(m.bytes() + rest =~= uvarint(m.seq) + (uvarint(m.nonce) + rest));
    lemma_uvarint_round_trip(m.seq, uvarint(m.nonce) + rest);
    lemma_uvarint_round_trip(m.nonce, rest);
}

/// A countersigned tree position: the request, the port assigned, the signature.
#[derive(Clone, Copy, Debug)]
pub struct SigRes {
    pub seq: u64,
    pub nonce: u64,
    pub port: PeerPort,
    pub psig: Sig,
}

/// The array that holds the bytes `s`.
pub open spec fn array_of<const N: usize>(s: Seq<u8>) -> [u8; N] {
    choose|a: [u8; N]| a@ == s
}

/// An array is the one that holds its bytes.
pub proof fn lemma_array_of<const N: usize>(a: [u8; N])
    ensures
        array_of::<N>(a@) == a,
{
    let b = array_of::<N>(a@);
    assert(b@ == a@);
    crate::bytes::lemma_array_view_eq(a, b);
}

/// Some array holds any bytes of its length, and agrees with them up to `n`.
proof fn lemma_some_array<const N: usize>(s: Seq<u8>, n: nat) -> (a: [u8; N])
    requires
        s.len() == N,
        n <= N,
    ensures
        forall|i: int| 0 <= i < n ==> a@[i] == s[i],
    decreases n,
{
    broadcast use vstd::array::group_array_axioms;

    if n == 0 {
        arbitrary()
    } else {
        let b = lemma_some_array::<N>(s, (n - 1) as nat);
        vstd::array::spec_array_update(b, n - 1, s[n - 1])
    }
}

/// The array of bytes of its length holds them.
pub proof fn lemma_array_holds<const N: usize>(s: Seq<u8>)
    requires
        s.len() == N,
    ensures
        array_of::<N>(s)@ == s,
{
    let a = lemma_some_array::<N>(s, N as nat);
    assert(a@ =~= s);
}

impl SigRes {
    /// The encoding: seq, nonce, port, signature.
    pub open spec fn bytes(&self) -> Seq<u8> {
        uvarint(self.seq) + uvarint(self.nonce) + uvarint(self.port) + self.psig@
    }

    /// Appends the encoding.
    pub fn encode(&self, out: &mut Vec<u8>)
        ensures
            final(out)@ == old(out)@ + self.bytes(),
    {
        encode_uvarint(out, self.seq);
        encode_uvarint(out, self.nonce);
        encode_uvarint(out, self.port);
        append(out, self.psig.as_slice());
        assert(out@ =~= old(out)@ + self.bytes());
    }

    /// Reads a response off the reader.
    pub fn decode(r: &mut WireReader) -> (res: Result<SigRes, WireError>)
        requires
            old(r).wf(),
        ensures
            final(r).wf(),
            match parse_sig_res(old(r).rest()) {
                Some((m, rest)) => res == Ok::<SigRes, WireError>(m) && final(r).rest() == rest,
                None => res is Err,
            },
    {
        let seq: u64 = r.read_uvarint()?;
        let nonce: u64 = r.read_uvarint()?;
        let port: u64 = r.read_uvarint()?;
        let psig: Sig = r.read_array::<64>()?;
        proof {
            lemma_array_of(psig);
        }
        Ok(SigRes { seq, nonce, port, psig })
    }
}

/// Reads a response off the front of `s`.
pub open spec fn parse_sig_res(s: Seq<u8>) -> Option<(SigRes, Seq<u8>)> {
    match parse_uvarint(s) {
        None => None,
        Some((seq, s1)) => match parse_uvarint(s1) {
            None => None,
            Some((nonce, s2)) => match parse_uvarint(s2) {
                None => None,
                Some((port, s3)) => match parse_bytes(s3, 64) {
                    None => None,
                    Some((b, s4)) => Some((SigRes { seq, nonce, port, psig: array_of::<64>(b) }, s4)),
                },
            },
        },
    }
}

/// Reading gives back the response that was written.
pub proof fn lemma_sig_res_round_trip(m: SigRes, rest: Seq<u8>)
    ensures
        parse_sig_res(m.bytes() + rest) == Some((m, rest)),
{
    let s3 = m.psig@ + rest;
    let s2 = uvarint(m.port) + s3;
    let s1 = uvarint(m.nonce) + s2;
    assert(m.bytes() + rest =~= uvarint(m.seq) + s1);
    lemma_uvarint_round_trip(m.seq, s1);
    lemma_uvarint_round_trip(m.nonce, s2);
    lemma_uvarint_round_trip(m.port, s3);
    lemma_bytes_round_trip(m.psig@, rest);
    lemma_array_of(m.psig);
}

/// A tree announcement: node, parent, the parent's response, the node's own signature.
#[derive(Clone, Copy, Debug)]
pub struct Announce {
    pub key: PublicKey,
    pub parent: PublicKey,
    pub sig_res: SigRes,
    pub sig: Sig,
}

impl Announce {
    /// The encoding: key, parent, response, signature.
    pub open spec fn bytes(&self) -> Seq<u8> {
        self.key@ + self.parent@ + self.sig_res.bytes() + self.sig@
    }

    /// Appends the encoding.
    pub fn encode(&self, out: &mut Vec<u8>)
        ensures
            final(out)@ == old(out)@ + self.bytes(),
    {
        append(out, self.key.as_slice());
        append(out, self.parent.as_slice());
        self.sig_res.encode(out);
        append(out, self.sig.as_slice());
        assert(out@ =~= old(out)@ + self.bytes());
    }

    /// Reads an announcement that takes up all of `data`.
    pub fn decode(data: &[u8]) -> (res: Result<Announce, WireError>)
        ensures
            match parse_announce(data@) {
                Some(m) => res == Ok::<Announce, WireError>(m),
                None => res is Err,
            },
    {
        let mut r = WireReader::new(data);
        let key: PublicKey = r.read_array::<32>()?;
        let parent: PublicKey = r.read_array::<32>()?;
        let sig_res = SigRes::decode(&mut r)?;
        let sig: Sig = r.read_array::<64>()?;
        proof {
            lemma_array_of(key);
            lemma_array_of(parent);
            lemma_array_of(sig);
        }
        if !r.is_done() {
            return Err(WireError::Decode);
        }
        Ok(Announce { key, parent, sig_res, sig })
    }
}

/// Reads an announcement that takes up all of `s`.
pub open spec fn parse_announce(s: Seq<u8>) -> Option<Announce> {
    match parse_bytes(s, 32) {
        None => None,
        Some((key, s1)) => match parse_bytes(s1, 32) {
            None => None,
            Some((parent, s2)) => match parse_sig_res(s2) {
                None => None,
                Some((sig_res, s3)) => match parse_bytes(s3, 64) {
                    None => None,
                    Some((sig, s4)) => if s4.len() == 0 {
                        Some(
                            Announce {
                                key: array_of::<32>(key),
                                parent: array_of::<32>(parent),
                                sig_res,
                                sig: array_of::<64>(sig),
                            },
                        )
                    } else {
                        None
                    },
                },
            },
        },
    }
}

/// Reading gives back the announcement that was written.
pub proof fn lemma_announce_round_trip(m: Announce)
    ensures
        parse_announce(m.bytes()) == Some(m),
{
    let s4 = Seq::<u8>::empty();
    let s3 = m.sig@ + s4;
    let s2 = m.sig_res.bytes() + s3;
    let s1 = m.parent@ + s2;
    assert(m.bytes() =~= m.key@ + s1);
    lemma_bytes_round_trip(m.key@, s1);
    lemma_bytes_round_trip(m.parent@, s2);
    lemma_sig_res_round_trip(m.sig_res, s3);
    lemma_bytes_round_trip(m.sig@, s4);
    lemma_array_of(m.key);
    lemma_array_of(m.parent);
    lemma_array_of(m.sig);
}

/// A search for the path to a node.
#[derive(Debug)]
pub struct PathLookup {
    pub source: PublicKey,
    pub dest: PublicKey,
    pub from: Vec<PeerPort>,
}

/// What a [`PathLookup`] holds.
pub struct PathLookupView {
    pub source: PublicKey,
    pub dest: PublicKey,
    pub from: Seq<PeerPort>,
}

impl View for PathLookup {
    type V = PathLookupView;

    open spec fn view(&self) -> PathLookupView {
        PathLookupView { source: self.source, dest: self.dest, from: self.from@ }
    }
}

impl PathLookupView {
    /// The encoding: source, dest, from.
    pub open spec fn bytes(&self) -> Seq<u8> {
        self.source@ + self.dest@ + path_bytes(self.from)
    }
}

impl Clone for PathLookup {
    fn clone(&self) -> (r: Self)
        ensures
            r@ == self@,
    {
        PathLookup { source: self.source, dest: self.dest, from: crate::bytes::copy_u64s(&self.from) }
    }
}

impl PathLookup {
    /// Appends the encoding.
    pub fn encode(&self, out: &mut Vec<u8>)
        ensures
            final(out)@ == old(out)@ + self@.bytes(),
    {
        append(out, self.source.as_slice());
        append(out, self.dest.as_slice());
        encode_path(out, &self.from);
        assert(out@ =~= old(out)@ + self@.bytes());
    }

    /// Reads a lookup that takes up all of `data`.
    pub fn decode(data: &[u8]) -> (res: Result<PathLookup, WireError>)
        ensures
            match parse_path_lookup(data@) {
                Some(m) => res matches Ok(l) && l@ == m,
                None => res is Err,
            },
    {
        let mut r = WireReader::new(data);
        let source: PublicKey = r.read_array::<32>()?;
        let dest: PublicKey = r.read_array::<32>()?;
        let from = r.read_path()?;
        proof {
            lemma_array_of(source);
            lemma_array_of(dest);
        }
        if !r.is_done() {
            return Err(WireError::Decode);
        }
        Ok(PathLookup { source, dest, from })
    }
}

/// Reads a lookup that takes up all of `s`.
pub open spec fn parse_path_lookup(s: Seq<u8>) -> Option<PathLookupView> {
    match parse_bytes(s, 32) {
        None => None,
        Some((source, s1)) => match parse_bytes(s1, 32) {
            None => None,
            Some((dest, s2)) => match parse_path(s2) {
                None => None,
                Some((from, s3)) => if s3.len() == 0 {
                    Some(
                        PathLookupView {
                            source: array_of::<32>(source),
                            dest: array_of::<32>(dest),
                            from,
                        },
                    )
                } else {
                    None
                },
            },
        },
    }
}

/// Reading gives back the lookup that was written.
pub proof fn lemma_path_lookup_round_trip(m: PathLookupView)
    requires
        is_path(m.from),
    ensures
        parse_path_lookup(m.bytes()) == Some(m),
{
    let s3 = Seq::<u8>::empty();
    let s2 = path_bytes(m.from) + s3;
    let s1 = m.dest@ + s2;
    assert(m.bytes() =~= m.source@ + s1);
    lemma_bytes_round_trip(m.source@, s1);
    lemma_bytes_round_trip(m.dest@, s2);
    lemma_path_round_trip(m.from, s3);
    lemma_array_of(m.source);
    lemma_array_of(m.dest);
}

/// A node's signed position in the tree.
#[derive(Debug)]
pub struct PathNotifyInfo {
    pub seq: u64,
    pub path: Vec<PeerPort>,
    pub sig: Sig,
}

/// What a [`PathNotifyInfo`] holds.
pub struct PathNotifyInfoView {
    pub seq: u64,
    pub path: Seq<PeerPort>,
    pub sig: Sig,
}

impl View for PathNotifyInfo {
    type V = PathNotifyInfoView;

    open spec fn view(&self) -> PathNotifyInfoView {
        PathNotifyInfoView { seq: self.seq, path: self.path@, sig: self.sig }
    }
}

/// An answer to a lookup, on its way to whoever asked.
#[derive(Debug)]
pub struct PathNotify {
    pub path: Vec<PeerPort>,
    pub watermark: u64,
    pub source: PublicKey,
    pub dest: PublicKey,
    pub info: PathNotifyInfo,
}

/// What a [`PathNotify`] holds.
pub struct PathNotifyView {
    pub path: Seq<PeerPort>,
    pub watermark: u64,
    pub source: PublicKey,
    pub dest: PublicKey,
    pub info: PathNotifyInfoView,
}

impl View for PathNotify {
    type V = PathNotifyView;

    open spec fn view(&self) -> PathNotifyView {
        PathNotifyView {
            path: self.path@,
            watermark: self.watermark,
            source: self.source,
            dest: self.dest,
            info: self.info@,
        }
    }
}

impl PathNotifyView {
    /// The encoding: path, watermark, source, dest, then seq, path and signature of the info.
    pub open spec fn bytes(&self) -> Seq<u8> {
        path_bytes(self.path) + uvarint(self.watermark) + self.source@ + self.dest@ + uvarint(
            self.info.seq,
        ) + path_bytes(self.info.path) + self.info.sig@
    }
}

impl Clone for PathNotify {
    fn clone(&self) -> (r: Self)
        ensures
            r@ == self@,
    {
        PathNotify {
            path: crate::bytes::copy_u64s(&self.path),
            watermark: self.watermark,
            source: self.source,
            dest: self.dest,
            info: PathNotifyInfo {
                seq: self.info.seq,
                path: crate::bytes::copy_u64s(&self.info.path),
                sig: self.info.sig,
            },
        }
    }
}

impl PathNotify {
    /// Appends the encoding.
    pub fn encode(&self, out: &mut Vec<u8>)
        ensures
            final(out)@ == old(out)@ + self@.bytes(),
    {
        encode_path(out, &self.path);
        encode_uvarint(out, self.watermark);
        append(out, self.source.as_slice());
        append(out, self.dest.as_slice());
        encode_uvarint(out, self.info.seq);
        encode_path(out, &self.info.path);
        append(out, self.info.sig.as_slice());
        assert(out@ =~= old(out)@ + self@.bytes());
    }

    /// Reads a notification that takes up all of `data`.
    pub fn decode(data: &[u8]) -> (res: Result<PathNotify, WireError>)
        ensures
            match parse_path_notify(data@) {
                Some(m) => res matches Ok(n) && n@ == m,
                None => res is Err,
            },
    {
        let mut r = WireReader::new(data);
        let path = r.read_path()?;
        let watermark: u64 = r.read_uvarint()?;
        let source: PublicKey = r.read_array::<32>()?;
        let dest: PublicKey = r.read_array::<32>()?;
        let seq: u64 = r.read_uvarint()?;
        let own_path = r.read_path()?;
        let sig: Sig = r.read_array::<64>()?;
        proof {
            lemma_array_of(source);
            lemma_array_of(dest);
            lemma_array_of(sig);
        }
        if !r.is_done() {
            return Err(WireError::Decode);
        }
        Ok(PathNotify { path, watermark, source, dest, info: PathNotifyInfo { seq, path: own_path, sig } })
    }
}

/// Reads a notification that takes up all of `s`.
pub open spec fn parse_path_notify(s: Seq<u8>) -> Option<PathNotifyView> {
    match parse_path(s) {
        None => None,
        Some((path, s1)) => match parse_uvarint(s1) {
            None => None,
            Some((watermark, s2)) => match parse_bytes(s2, 32) {
                None => None,
                Some((source, s3)) => match parse_bytes(s3, 32) {
                    None => None,
                    Some((dest, s4)) => match parse_uvarint(s4) {
                        None => None,
                        Some((seq, s5)) => match parse_path(s5) {
                            None => None,
                            Some((own_path, s6)) => match parse_bytes(s6, 64) {
                                None => None,
                                Some((sig, s7)) => if s7.len() == 0 {
                                    Some(
                                        PathNotifyView {
                                            path,
                                            watermark,
                                            source: array_of::<32>(source),
                                            dest: array_of::<32>(dest),
                                            info: PathNotifyInfoView {
                                                seq,
                                                path: own_path,
                                                sig: array_of::<64>(sig),
                                            },
                                        },
                                    )
                                } else {
                                    None
                                },
                            },
                        },
                    },
                },
            },
        },
    }
}

/// Reading gives back the notification that was written.
pub proof fn lemma_path_notify_round_trip(m: PathNotifyView)
    requires
        is_path(m.path),
        is_path(m.info.path),
    ensures
        parse_path_notify(m.bytes()) == Some(m),
{
    let s7 = Seq::<u8>::empty();
    let s6 = m.info.sig@ + s7;
    let s5 = path_bytes(m.info.path) + s6;
    let s4 = uvarint(m.info.seq) + s5;
    let s3 = m.dest@ + s4;
    let s2 = m.source@ + s3;
    let s1 = uvarint(m.watermark) + s2;
    assert(m.bytes() =~= path_bytes(m.path) + s1);
    lemma_path_round_trip(m.path, s1);
    lemma_uvarint_round_trip(m.watermark, s2);
    lemma_bytes_round_trip(m.source@, s3);
    lemma_bytes_round_trip(m.dest@, s4);
    lemma_uvarint_round_trip(m.info.seq, s5);
    lemma_path_round_trip(m.info.path, s6);
    lemma_bytes_round_trip(m.info.sig@, s7);
    lemma_array_of(m.source);
    lemma_array_of(m.dest);
    lemma_array_of(m.info.sig);
}

/// Word that a path no longer works, on its way to the source of the traffic.
#[derive(Debug)]
pub struct PathBroken {
    pub path: Vec<PeerPort>,
    pub watermark: u64,
    pub source: PublicKey,
    pub dest: PublicKey,
}

/// What a [`PathBroken`] holds.
pub struct PathBrokenView {
    pub path: Seq<PeerPort>,
    pub watermark: u64,
    pub source: PublicKey,
    pub dest: PublicKey,
}

impl View for PathBroken {
    type V = PathBrokenView;

    open spec fn view(&self) -> PathBrokenView {
        PathBrokenView {
            path: self.path@,
            watermark: self.watermark,
            source: self.source,
            dest: self.dest,
        }
    }
}

impl PathBrokenView {
    /// The encoding: path, watermark, source, dest.
    pub open spec fn bytes(&self) -> Seq<u8> {
        path_bytes(self.path) + uvarint(self.watermark) + self.source@ + self.dest@
    }
}

impl Clone for PathBroken {
    fn clone(&self) -> (r: Self)
        ensures
            r@ == self@,
    {
        PathBroken {
            path: crate::bytes::copy_u64s(&self.path),
            watermark: self.watermark,
            source: self.source,
            dest: self.dest,
        }
    }
}

impl PathBroken {
    /// Appends the encoding.
    pub fn encode(&self, out: &mut Vec<u8>)
        ensures
            final(out)@ == old(out)@ + self@.bytes(),
    {
        encode_path(out, &self.path);
        encode_uvarint(out, self.watermark);
        append(out, self.source.as_slice());
        append(out, self.dest.as_slice());
        assert(out@ =~= old(out)@ + self@.bytes());
    }

    /// Reads a message that takes up all of `data`.
    pub fn decode(data: &[u8]) -> (res: Result<PathBroken, WireError>)
        ensures
            match parse_path_broken(data@) {
                Some(m) => res matches Ok(b) && b@ == m,
                None => res is Err,
            },
    {
        let mut r = WireReader::new(data);
        let path = r.read_path()?;
        let watermark: u64 = r.read_uvarint()?;
        let source: PublicKey = r.read_array::<32>()?;
        let dest: PublicKey = r.read_array::<32>()?;
        proof {
            lemma_array_of(source);
            lemma_array_of(dest);
        }
        if !r.is_done() {
            return Err(WireError::Decode);
        }
        Ok(PathBroken { path, watermark, source, dest })
    }
}

/// Reads a message that takes up all of `s`.
pub open spec fn parse_path_broken(s: Seq<u8>) -> Option<PathBrokenView> {
    match parse_path(s) {
        None => None,
        Some((path, s1)) => match parse_uvarint(s1) {
            None => None,
            Some((watermark, s2)) => match parse_bytes(s2, 32) {
                None => None,
                Some((source, s3)) => match parse_bytes(s3, 32) {
                    None => None,
                    Some((dest, s4)) => if s4.len() == 0 {
                        Some(
                            PathBrokenView {
                                path,
                                watermark,
                                source: array_of::<32>(source),
                                dest: array_of::<32>(dest),
                            },
                        )
                    } else {
                        None
                    },
                },
            },
        },
    }
}

/// Reading gives back the message that was written.
pub proof fn lemma_path_broken_round_trip(m: PathBrokenView)
    requires
        is_path(m.path),
    ensures
        parse_path_broken(m.bytes()) == Some(m),
{
    let s4 = Seq::<u8>::empty();
    let s3 = m.dest@ + s4;
    let s2 = m.source@ + s3;
    let s1 = uvarint(m.watermark) + s2;
    assert(m.bytes() =~= path_bytes(m.path) + s1);
    lemma_path_round_trip(m.path, s1);
    lemma_uvarint_round_trip(m.watermark, s2);
    lemma_bytes_round_trip(m.source@, s3);
    lemma_bytes_round_trip(m.dest@, s4);
    lemma_array_of(m.source);
    lemma_array_of(m.dest);
}

/// A packet of user traffic.
#[derive(Debug)]
pub struct Traffic {
    pub path: Vec<PeerPort>,
    pub from: Vec<PeerPort>,
    pub source: PublicKey,
    pub dest: PublicKey,
    pub watermark: u64,
    pub payload: Vec<u8>,
}

/// What a [`Traffic`] holds.
pub struct TrafficView {
    pub path: Seq<PeerPort>,
    pub from: Seq<PeerPort>,
    pub source: PublicKey,
    pub dest: PublicKey,
    pub watermark: u64,
    pub payload: Seq<u8>,
}

impl View for Traffic {
    type V = TrafficView;

    open spec fn view(&self) -> TrafficView {
        TrafficView {
            path: self.path@,
            from: self.from@,
            source: self.source,
            dest: self.dest,
            watermark: self.watermark,
            payload: self.payload@,
        }
    }
}

impl TrafficView {
    /// The encoding: path, from, source, dest, watermark, payload.
    pub open spec fn bytes(&self) -> Seq<u8> {
        path_bytes(self.path) + path_bytes(self.from) + self.source@ + self.dest@ + uvarint(
            self.watermark,
        ) + self.payload
    }
}

impl Traffic {
    /// Reads a packet; the payload is what is left after the other fields.
    pub fn decode(data: &[u8]) -> (res: Result<Traffic, WireError>)
        ensures
            match parse_traffic(data@) {
                Some(m) => res matches Ok(t) && t@ == m,
                None => res is Err,
            },
    {
        let mut r = WireReader::new(data);
        let path = r.read_path()?;
        let from = r.read_path()?;
        let source: PublicKey = r.read_array::<32>()?;
        let dest: PublicKey = r.read_array::<32>()?;
        let watermark: u64 = r.read_uvarint()?;
        proof {
            lemma_array_of(source);
            lemma_array_of(dest);
        }
        let payload = r.read_rest();
        Ok(Traffic { path, from, source, dest, watermark, payload })
    }
}

/// Reads a packet; the payload is what is left after the other fields.
pub open spec fn parse_traffic(s: Seq<u8>) -> Option<TrafficView> {
    match parse_path(s) {
        None => None,
        Some((path, s1)) => match parse_path(s1) {
            None => None,
            Some((from, s2)) => match parse_bytes(s2, 32) {
                None => None,
                Some((source, s3)) => match parse_bytes(s3, 32) {
                    None => None,
                    Some((dest, s4)) => match parse_uvarint(s4) {
                        None => None,
                        Some((watermark, s5)) => Some(
                            TrafficView {
                                path,
                                from,
                                source: array_of::<32>(source),
                                dest: array_of::<32>(dest),
                                watermark,
                                payload: s5,
                            },
                        ),
                    },
                },
            },
        },
    }
}

/// Reading gives back the packet that was written.
pub proof fn lemma_traffic_round_trip(m: TrafficView)
    requires
        is_path(m.path),
        is_path(m.from),
    ensures
        parse_traffic(m.bytes()) == Some(m),
{
    let s5 = m.payload;
    let s4 = uvarint(m.watermark) + s5;
    let s3 = m.dest@ + s4;
    let s2 = m.source@ + s3;
    let s1 = path_bytes(m.from) + s2;
    assert(m.bytes() =~= path_bytes(m.path) + s1);
    lemma_path_round_trip(m.path, s1);
    lemma_path_round_trip(m.from, s2);
    lemma_bytes_round_trip(m.source@, s3);
    lemma_bytes_round_trip(m.dest@, s4);
    lemma_uvarint_round_trip(m.watermark, s5);
    lemma_array_of(m.source);
    lemma_array_of(m.dest);
}

// ---------------------------------------------------------------------------
// Frames
// ---------------------------------------------------------------------------

/// What kind of message a frame carries.
#[derive(Clone, Copy, Debug, PartialEq, Eq, Structural)]
pub enum PacketType {
    Dummy,
    KeepAlive,
    ProtoSigReq,
    ProtoSigRes,
    ProtoAnnounce,
    ProtoBloomFilter,
    ProtoPathLookup,
    ProtoPathNotify,
    ProtoPathBroken,
    Traffic,
}

/// The type byte of a kind of message.
pub open spec fn type_byte(t: PacketType) -> u8 {
    match t {
        PacketType::Dummy => 0,
        PacketType::KeepAlive => 1,
        PacketType::ProtoSigReq => 2,
        PacketType::ProtoSigRes => 3,
        PacketType::ProtoAnnounce => 4,
        PacketType::ProtoBloomFilter => 5,
        PacketType::ProtoPathLookup => 6,
        PacketType::ProtoPathNotify => 7,
        PacketType::ProtoPathBroken => 8,
        PacketType::Traffic => 9,
    }
}

impl PacketType {
    /// The type byte.
    pub fn to_byte(&self) -> (b: u8)
        ensures
            b == type_byte(*self),
    {
        match self {
            PacketType::Dummy => 0,
            PacketType::KeepAlive => 1,
            PacketType::ProtoSigReq => 2,
            PacketType::ProtoSigRes => 3,
            PacketType::ProtoAnnounce => 4,
            PacketType::ProtoBloomFilter => 5,
            PacketType::ProtoPathLookup => 6,
            PacketType::ProtoPathNotify => 7,
            PacketType::ProtoPathBroken => 8,
            PacketType::Traffic => 9,
        }
    }

    /// The kind of message that a type byte stands for, if any.
    pub fn from_byte(b: u8) -> (r: Option<PacketType>)
        ensures
            match r {
                Some(t) => type_byte(t) == b,
                None => b > 9,
            },
    {
        if b == 0 {
            Some(PacketType::Dummy)
        } else if b == 1 {
            Some(PacketType::KeepAlive)
        } else if b == 2 {
            Some(PacketType::ProtoSigReq)
        } else if b == 3 {
            Some(PacketType::ProtoSigRes)
        } else if b == 4 {
            Some(PacketType::ProtoAnnounce)
        } else if b == 5 {
            Some(PacketType::ProtoBloomFilter)
        } else if b == 6 {
            Some(PacketType::ProtoPathLookup)
        } else if b == 7 {
            Some(PacketType::ProtoPathNotify)
        } else if b == 8 {
            Some(PacketType::ProtoPathBroken)
        } else if b == 9 {
            Some(PacketType::Traffic)
        } else {
            None
        }
    }
}

/// A frame: the length of type byte and payload, the type byte, the payload.
pub open spec fn frame_bytes(t: PacketType, payload: Seq<u8>) -> Seq<u8> {
    uvarint((payload.len() + 1) as u64) + seq![type_byte(t)] + payload
}

/// Puts a payload in a frame.
pub fn encode_frame(t: PacketType, payload: &[u8]) -> (out: Vec<u8>)
    requires
        payload@.len() < usize::MAX,
    ensures
        out@ == frame_bytes(t, payload@),
{
    let mut out: Vec<u8> = Vec::new();
    encode_uvarint(&mut out, payload.len() as u64 + 1);
    out.push(t.to_byte());
    append(&mut out, payload);
    assert(out@ =~= frame_bytes(t, payload@));
    out
}

/// Puts a packet of user traffic in a frame.
pub fn encode_traffic_frame(
    path: &[PeerPort],
    from: &[PeerPort],
    source: &PublicKey,
    dest: &PublicKey,
    watermark: u64,
    payload: &[u8],
) -> (out: Vec<u8>)
    requires
        (TrafficView {
            path: path@,
            from: from@,
            source: *source,
            dest: *dest,
            watermark,
            payload: payload@,
        }).bytes().len() < usize::MAX,
    ensures
        out@ == frame_bytes(
            PacketType::Traffic,
            (TrafficView {
                path: path@,
                from: from@,
                source: *source,
                dest: *dest,
                watermark,
                payload: payload@,
            }).bytes(),
        ),
{
    let mut body: Vec<u8> = Vec::new();
    encode_path(&mut body, path);
    encode_path(&mut body, from);
    append(&mut body, source.as_slice());
    append(&mut body, dest.as_slice());
    encode_uvarint(&mut body, watermark);
    append(&mut body, payload);
    assert(body@ =~= (TrafficView {
        path: path@,
        from: from@,
        source: *source,
        dest: *dest,
        watermark,
        payload: payload@,
    }).bytes());
    encode_frame(PacketType::Traffic, &body)
}

/// Reads a frame off the front of `s`: type byte, payload, and what follows the frame.
pub open spec fn parse_frame(s: Seq<u8>) -> Option<(u8, Seq<u8>, Seq<u8>)> {
    match parse_uvarint(s) {
        None => None,
        Some((n, s1)) => if 0 < n <= s1.len() {
            Some((s1[0], s1.subrange(1, n as int), s1.skip(n as int)))
        } else {
            None
        },
    }
}

/// A stream of frames can be taken apart again: the frame at its front is the one written.
pub proof fn lemma_frame_round_trip(t: PacketType, payload: Seq<u8>, rest: Seq<u8>)
    requires
        payload.len() < u64::MAX,
    ensures
        parse_frame(frame_bytes(t, payload) + rest) == Some((type_byte(t), payload, rest)),
{
    let n = (payload.len() + 1) as u64;
    let s1 = seq![type_byte(t)] + payload + rest;
    assert(frame_bytes(t, payload) + rest =~= uvarint(n) + s1);
    lemma_uvarint_round_trip(n, s1);
    assert(s1.subrange(1, n as int) =~= payload);
    assert(s1.skip(n as int) =~= rest);
}

} // verus!
