//! The IPv6 addresses and networks of nodes, made of their keys.
use vstd::prelude::*;
use crate::blooms::KeyTransform;
use crate::bytes::{take_array, to_vec, PublicKey};
use crate::seqs::{first_index, lemma_first_index, lemma_first_index_at};
use crate::wire::{array_of, lemma_array_of};

verus! {

/// The first byte of the address of a node.
pub const ADDRESS_PREFIX: u8 = 0x02;

/// The first byte of the network of a node.
pub const SUBNET_PREFIX: u8 = 0x03;

/// The value of a bit by its place in a byte, the highest first.
#[verifier::opaque]
pub open spec fn weight(i: int) -> int {
    if i == 0 {
        128
    } else if i == 1 {
        64
    } else if i == 2 {
        32
    } else if i == 3 {
        16
    } else if i == 4 {
        8
    } else if i == 5 {
        4
    } else if i == 6 {
        2
    } else {
        1
    }
}

/// The bits of bytes, the highest of each first.
pub open spec fn bits(s: Seq<u8>) -> Seq<bool> {
    Seq::new(8 * s.len(), |i: int| (s[i / 8] as int / weight(i % 8)) % 2 == 1)
}

/// The number that a bit is.
pub open spec fn digit(b: bool) -> int {
    if b {
        1
    } else {
        0
    }
}

/// The byte that eight bits make.
#[verifier::opaque]
pub open spec fn byte_at(b: Seq<bool>, k: int) -> u8 {
    (128 * digit(b[8 * k]) + 64 * digit(b[8 * k + 1]) + 32 * digit(b[8 * k + 2]) + 16 * digit(
        b[8 * k + 3],
    ) + 8 * digit(b[8 * k + 4]) + 4 * digit(b[8 * k + 5]) + 2 * digit(b[8 * k + 6]) + digit(
        b[8 * k + 7],
    )) as u8
}

/// The bytes that bits make. Bits that fill no byte are left out.
pub open spec fn packed(b: Seq<bool>) -> Seq<u8> {
    Seq::new(b.len() / 8, |k: int| byte_at(b, k))
}

/// Bits turned over.
pub open spec fn flipped(b: Seq<bool>) -> Seq<bool> {
    b.map_values(|x: bool| !x)
}

/// The property of a bit to be one.
pub open spec fn is_one() -> spec_fn(bool) -> bool {
    |x: bool| x
}

/// How many zeros there are before the first one.
pub open spec fn zeros(b: Seq<bool>) -> int {
    first_index(b, is_one())
}

/// What follows the first one.
pub open spec fn after_one(b: Seq<bool>) -> Seq<bool> {
    b.skip(
        if zeros(b) + 1 <= b.len() {
            zeros(b) + 1
        } else {
            b.len() as int
        },
    )
}

/// Bytes with zeros behind them, or cut off, so that there are `n`.
pub open spec fn padded(s: Seq<u8>, n: nat) -> Seq<u8> {
    Seq::new(
        n,
        |i: int|
            if i < s.len() {
                s[i]
            } else {
                0
            },
    )
}

/// The address of a key: the prefix, how many zeros the key starts with, and what follows the
/// first one in the key, turned over, as far as there is room and it fills bytes.
pub open spec fn address_of(key: Seq<u8>) -> Seq<u8> {
    seq![ADDRESS_PREFIX, (zeros(bits(key)) % 256) as u8] + padded(
        packed(flipped(after_one(bits(key)))),
        14,
    )
}

/// The network of a key: the first half of the address, with another prefix.
pub open spec fn subnet_of(key: Seq<u8>) -> Seq<u8> {
    seq![SUBNET_PREFIX] + address_of(key).subrange(1, 8)
}

/// The bit of the key that an address stands for: as many zeros as the address says, a one, what
/// the address has of the rest of the key, and ones.
pub open spec fn key_bit(addr: Seq<u8>, i: int) -> bool {
    let n = addr[1] as int;
    if i < n {
        false
    } else if i == n {
        true
    } else if i - n - 1 < 8 * (addr.len() - 2) {
        !bits(addr)[16 + i - n - 1]
    } else {
        true
    }
}

/// The key that an address stands for. It starts like the key that the address was made of.
pub open spec fn key_of_address(addr: Seq<u8>) -> Seq<u8> {
    packed(Seq::new(256, |i: int| key_bit(addr, i)))
}

/// A network with zeros behind it.
pub open spec fn first_address(subnet: Seq<u8>) -> Seq<u8> {
    padded(subnet, 16)
}

/// The key by which a node is looked up: all that is known of it from its network.
pub open spec fn lookup_key(key: Seq<u8>) -> Seq<u8> {
    key_of_address(first_address(subnet_of(key)))
}

/// The address of a node.
#[derive(Clone, Copy, Debug, PartialEq, Eq)]
pub struct Address(pub [u8; 16]);

/// The network of a node.
#[derive(Clone, Copy, Debug, PartialEq, Eq)]
pub struct Subnet(pub [u8; 8]);

fn bits_of(data: &[u8]) -> (r: Vec<bool>)
    requires
        data@.len() <= 32,
    ensures
        r@ == bits(data@),
{
    let mut r: Vec<bool> = Vec::new();
    let mut i: usize = 0;
    let n: usize = 8 * data.len();
    while i < n
        invariant
            i <= n,
            n == 8 * data@.len(),
            data@.len() <= 32,
            r@.len() == i,
            forall|j: int| 0 <= j < i ==> #[trigger] r@[j] == bits(data@)[j],
        decreases n - i,
    {
        let b: u8 = data[i / 8];
        let w: u8 = match i % 8 {
            0 => 128,
            1 => 64,
            2 => 32,
            3 => 16,
            4 => 8,
            5 => 4,
            6 => 2,
            _ => 1,
        };
        proof {
            reveal(weight);
        }
        r.push((b / w) % 2 == 1);
        i = i + 1;
    }
    assert(r@ =~= bits(data@));
    r
}

fn bytes_of(b: &Vec<bool>) -> (r: Vec<u8>)
    requires
        b@.len() <= 256,
    ensures
        r@ == packed(b@),
{
    let mut r: Vec<u8> = Vec::new();
    let n: usize = b.len() / 8;
    let mut k: usize = 0;
    while k < n
        invariant
            k <= n,
            n == b@.len() / 8,
            b@.len() <= 256,
            r@.len() == k,
            forall|j: int| 0 <= j < k ==> #[trigger] r@[j] == packed(b@)[j],
        decreases n - k,
    {
        let mut v: u8 = 0;
        let mut i: usize = 0;
        let ghost at = 8 * k;
        proof {
            reveal(byte_at);
        }
        while i < 8
            invariant
                i <= 8,
                k < n,
                n == b@.len() / 8,
                at == 8 * k,
                b@.len() <= 256,
                i == 0 ==> v == 0,
                i == 1 ==> v == digit(b@[at]),
                i == 2 ==> v == 2 * digit(b@[at]) + digit(b@[at + 1]),
                i == 3 ==> v == 4 * digit(b@[at]) + 2 * digit(b@[at + 1]) + digit(b@[at + 2]),
                i == 4 ==> v == 8 * digit(b@[at]) + 4 * digit(b@[at + 1]) + 2 * digit(b@[at + 2])
                    + digit(b@[at + 3]),
                i == 5 ==> v == 16 * digit(b@[at]) + 8 * digit(b@[at + 1]) + 4 * digit(b@[at + 2])
                    + 2 * digit(b@[at + 3]) + digit(b@[at + 4]),
                i == 6 ==> v == 32 * digit(b@[at]) + 16 * digit(b@[at + 1]) + 8 * digit(b@[at + 2])
                    + 4 * digit(b@[at + 3]) + 2 * digit(b@[at + 4]) + digit(b@[at + 5]),
                i == 7 ==> v == 64 * digit(b@[at]) + 32 * digit(b@[at + 1]) + 16 * digit(b@[at + 2])
                    + 8 * digit(b@[at + 3]) + 4 * digit(b@[at + 4]) + 2 * digit(b@[at + 5]) + digit(
                    b@[at + 6],
                ),
                i == 8 ==> v == byte_at(b@, k as int),
            decreases 8 - i,
        {
            proof {
                reveal(byte_at);
            }
            v = 2 * v + if b[8 * k + i] {
                1
            } else {
                0
            };
            i = i + 1;
        }
        r.push(v);
        k = k + 1;
    }
    assert(r@ =~= packed(b@));
    r
}

/// The address of a key.
pub fn addr_for_key(key: &PublicKey) -> (r: Address)
    ensures
        r.0@ == address_of(key@),
{
    let all = bits_of(key.as_slice());
    let mut n: usize = 0;
    while n < all.len() && !all[n]
        invariant
            n <= all@.len(),
            all@ == bits(key@),
            forall|j: int| 0 <= j < n ==> !is_one()(#[trigger] all@[j]),
        decreases all@.len() - n,
    {
        n = n + 1;
    }
    proof {
        lemma_first_index_at(all@, is_one(), n as int);
    }
    let mut rest: Vec<bool> = Vec::new();
    let ghost tail = flipped(after_one(all@));
    let mut i: usize = n + 1;
    while i < all.len()
        invariant
            n < i,
            n == zeros(all@),
            all@.len() == 256,
            i <= 257,
            i == 257 ==> n == 256,
            tail == flipped(after_one(all@)),
            rest@.len() == (if i <= 256 {
                i - n - 1
            } else {
                0
            }),
            forall|j: int| 0 <= j < rest@.len() ==> #[trigger] rest@[j] == tail[j],
        decreases all@.len() - i,
    {
        rest.push(!all[i]);
        assert(rest@[i - n - 1] == tail[i - n - 1]);
        i = i + 1;
    }
    assert(rest@ =~= tail);
    let packed_rest = bytes_of(&rest);
    let mut out: Vec<u8> = Vec::new();
    out.push(ADDRESS_PREFIX);
    out.push((n % 256) as u8);
    let ghost want = address_of(key@);
    let mut k: usize = 0;
    while k < 14
        invariant
            k <= 14,
            out@.len() == k + 2,
            want == address_of(key@),
            packed_rest@ == packed(flipped(after_one(bits(key@)))),
            forall|j: int| 0 <= j < out@.len() ==> #[trigger] out@[j] == want[j],
        decreases 14 - k,
    {
        out.push(
            if k < packed_rest.len() {
                packed_rest[k]
            } else {
                0
            },
        );
        k = k + 1;
    }
    assert(out@ =~= want);
    let a = take_array::<16>(out.as_slice(), 0);
    assert(a@ =~= want);
    Address(a)
}

/// The network of a key.
pub fn subnet_for_key(key: &PublicKey) -> (r: Subnet)
    ensures
        r.0@ == subnet_of(key@),
{
    let mut out = to_vec(addr_for_key(key).0.as_slice());
    out.set(0, SUBNET_PREFIX);
    let a = take_array::<8>(out.as_slice(), 0);
    assert(a@ =~= subnet_of(key@));
    Subnet(a)
}

impl Address {
    /// The key that the address stands for, as far as it says.
    pub fn get_key(&self) -> (r: PublicKey)
        ensures
            r@ == key_of_address(self.0@),
    {
        let a = bits_of(self.0.as_slice());
        let n: usize = self.0[1] as usize;
        let mut out: Vec<bool> = Vec::new();
        let ghost want = Seq::new(256, |i: int| key_bit(self.0@, i));
        let mut i: usize = 0;
        while i < 256
            invariant
                i <= 256,
                n == self.0@[1],
                a@ == bits(self.0@),
                out@.len() == i,
                want == Seq::new(256, |i: int| key_bit(self.0@, i)),
                forall|j: int| 0 <= j < i ==> #[trigger] out@[j] == want[j],
            decreases 256 - i,
        {
            let b: bool = if i < n {
                false
            } else if i == n {
                true
            } else if i - n - 1 < 112 {
                !a[16 + (i - n - 1)]
            } else {
                true
            };
            out.push(b);
            i = i + 1;
        }
        assert(out@ =~= want);
        let k = bytes_of(&out);
        let r = take_array::<32>(k.as_slice(), 0);
        assert(r@ =~= key_of_address(self.0@));
        r
    }
}

impl Subnet {
    /// The key that the network stands for, as far as it says.
    pub fn get_key(&self) -> (r: PublicKey)
        ensures
            r@ == key_of_address(first_address(self.0@)),
    {
        let mut out = to_vec(self.0.as_slice());
        let ghost want = first_address(self.0@);
        while out.len() < 16
            invariant
                8 <= out@.len() <= 16,
                want == first_address(self.0@),
                forall|j: int| 0 <= j < out@.len() ==> #[trigger] out@[j] == want[j],
            decreases 16 - out@.len(),
        {
            out.push(0);
        }
        let a = take_array::<16>(out.as_slice(), 0);
        assert(a@ =~= want);
        Address(a).get_key()
    }
}

/// The transform by which nodes are looked up: only what is known of a key from its network is
/// kept.
#[derive(Clone, Copy, Debug, PartialEq, Eq)]
pub struct SubnetTransform;

impl KeyTransform for SubnetTransform {
    open spec fn transformed(&self, key: PublicKey) -> PublicKey {
        array_of::<32>(lookup_key(key@))
    }

    fn apply(&self, key: &PublicKey) -> (r: PublicKey) {
        let r = subnet_for_key(key).get_key();
        proof {
            lemma_array_of(r);
        }
        r
    }
}

// ---------------------------------------------------------------------------
// Laws
// ---------------------------------------------------------------------------

proof fn lemma_bit_of_byte(b: Seq<bool>, i: int)
    requires
        0 <= i < 8 * (b.len() / 8),
    ensures
        bits(packed(b))[i] == b[i],
{
    let k = i / 8;
    let m = i % 8;
    assert(i == 8 * k + m);
    reveal(weight);
    reveal(byte_at);
    let v = byte_at(b, k) as int;
    assert(packed(b)[k] == byte_at(b, k));
    assert((v / weight(m)) % 2 == digit(b[8 * k + m]));
}

/// The bits of packed bits are the same bits.
pub proof fn lemma_bits_of_packed(b: Seq<bool>)
    requires
        b.len() % 8 == 0,
    ensures
        bits(packed(b)) == b,
{
    assert forall|i: int| 0 <= i < b.len() implies bits(packed(b))[i] == b[i] by {
        lemma_bit_of_byte(b, i);
    }
    assert(bits(packed(b)) =~= b);
}

proof fn lemma_bit_in_address(addr: Seq<u8>, a: Seq<bool>, k: int, j: int)
    requires
        addr.len() == 16,
        0 <= k < 14,
        8 * k + 8 <= a.len(),
        addr[2 + k] == packed(a)[k],
        8 * k <= j < 8 * k + 8,
    ensures
        bits(addr)[16 + j] == a[j],
{
    lemma_bit_of_byte(a, j);
    assert((16 + j) / 8 == 2 + k && (16 + j) % 8 == j - 8 * k);
    assert(j / 8 == k && j % 8 == j - 8 * k);
    assert(bits(packed(a))[j] == ((packed(a)[k] as int / weight(j - 8 * k)) % 2 == 1));
}

proof fn lemma_same_byte(a: Seq<bool>, b: Seq<bool>, k: int)
    requires
        forall|j: int| 8 * k <= j < 8 * k + 8 ==> #[trigger] b[j] == a[j],
    ensures
        byte_at(a, k) == byte_at(b, k),
{
    reveal(byte_at);
    assert(b[8 * k] == a[8 * k]);
    assert(b[8 * k + 1] == a[8 * k + 1]);
    assert(b[8 * k + 2] == a[8 * k + 2]);
    assert(b[8 * k + 3] == a[8 * k + 3]);
    assert(b[8 * k + 4] == a[8 * k + 4]);
    assert(b[8 * k + 5] == a[8 * k + 5]);
    assert(b[8 * k + 6] == a[8 * k + 6]);
    assert(b[8 * k + 7] == a[8 * k + 7]);
}

/// The key that an address stands for starts with as many zeros as the address says.
proof fn lemma_zeros_of_key(addr: Seq<u8>, want: Seq<bool>)
    requires
        addr.len() == 16,
        want == Seq::new(256, |i: int| key_bit(addr, i)),
    ensures
        zeros(want) == addr[1],
{
    let n = addr[1] as int;
    assert(is_one()(want[n]));
    assert forall|j: int| 0 <= j < n implies !is_one()(#[trigger] want[j]) by {
        assert(want[j] == key_bit(addr, j));
    }
    lemma_first_index_at(want, is_one(), n);
}

/// The key that a network stands for has that network: nothing is lost when a node is looked up
/// by it. The key that is all zeros has no one in it, and is left out.
#[verifier::spinoff_prover]
pub proof fn lemma_lookup_key_has_the_subnet(key: Seq<u8>)
    requires
        key.len() == 32,
        zeros(bits(key)) < 256,
    ensures
        subnet_of(lookup_key(key)) == subnet_of(key),
{
    let kb = bits(key);
    let n = zeros(kb);
    lemma_first_index(kb, is_one());
    let sub = subnet_of(key);
    let addr = first_address(sub);
    let want = Seq::new(256, |i: int| key_bit(addr, i));
    let lb = bits(lookup_key(key));
    lemma_bits_of_packed(want);
    assert(lb == want);
    assert(address_of(key)[1] == n);
    assert(sub[1] == n);
    assert(addr[1] == n);
    lemma_zeros_of_key(addr, want);
    // What follows is what the network has of it.
    let a = flipped(after_one(kb));
    let b = flipped(after_one(lb));
    assert(a.len() == 255 - n && b.len() == 255 - n);
    assert forall|k: int| 0 <= k < 6 && k < packed(a).len() implies #[trigger] packed(b)[k]
        == packed(a)[k] by {
        assert(address_of(key)[2 + k] == packed(a)[k]);
        assert(sub[2 + k] == packed(a)[k]);
        assert(addr[2 + k] == packed(a)[k]);
        assert forall|j: int| 8 * k <= j < 8 * k + 8 implies #[trigger] b[j] == a[j] by {
            assert(b[j] == !lb[n + 1 + j]);
            assert(lb[n + 1 + j] == key_bit(addr, n + 1 + j));
            lemma_bit_in_address(addr, a, k, j);
        }
        lemma_same_byte(a, b, k);
    }
    let there = subnet_of(lookup_key(key));
    assert forall|i: int| 0 <= i < 8 implies there[i] == sub[i] by {
        if i >= 2 {
            assert(address_of(key)[i] == padded(packed(a), 14)[i - 2]);
            assert(address_of(lookup_key(key))[i] == padded(packed(b), 14)[i - 2]);
            assert(packed(a).len() == packed(b).len());
        }
    }
    assert(there =~= sub);
}

/// What an address and a network are made of: the prefix `02` or `03`, the number of zeros that the key
/// starts with, and behind that the same bytes in both.
pub proof fn lemma_address_and_network(key: Seq<u8>, j: int)
    requires
        key.len() == 32,
        zeros(bits(key)) < 256,
        0 <= j < zeros(bits(key)),
    ensures
        address_of(key).len() == 16 && subnet_of(key).len() == 8,
        address_of(key)[0] == 2 && subnet_of(key)[0] == 3,
        address_of(key).subrange(1, 8) == subnet_of(key).subrange(1, 8),
        address_of(key)[1] == zeros(bits(key)),
        !bits(key)[j],
        bits(key)[zeros(bits(key))],
{
    let kb = bits(key);
    lemma_first_index(kb, is_one());
    assert(!is_one()(kb[j]));
    assert(is_one()(kb[zeros(kb)]));
    assert(address_of(key).subrange(1, 8) =~= subnet_of(key).subrange(1, 8));
}

/// The key that an address stands for agrees with the key that the address was made of in all bits that
/// the address holds: the zeros at the start, the first one, and up to fourteen whole bytes behind it.
/// So an address tells keys apart by these bits.
#[verifier::spinoff_prover]
pub proof fn lemma_address_gives_back_the_key(key: Seq<u8>, i: int)
    requires
        key.len() == 32,
        zeros(bits(key)) < 256,
        ({
            let n = zeros(bits(key));
            let whole = (255 - n) / 8;
            0 <= i <= n + 8 * (if whole < 14 { whole } else { 14 })
        }),
    ensures
        bits(key_of_address(address_of(key)))[i] == bits(key)[i],
{
    let kb = bits(key);
    let n = zeros(kb);
    lemma_first_index(kb, is_one());
    let addr = address_of(key);
    let want = Seq::new(256, |i: int| key_bit(addr, i));
    lemma_bits_of_packed(want);
    assert(bits(key_of_address(addr)) == want);
    assert(addr[1] == n);
    assert(want[i] == key_bit(addr, i));
    let a = flipped(after_one(kb));
    assert(a.len() == 255 - n);
    if i < n {
        assert(!is_one()(kb[i]));
    } else if i == n {
        assert(is_one()(kb[n]));
    } else {
        let j = i - n - 1;
        let k = j / 8;
        assert(0 <= k < 14);
        assert(8 * k + 8 <= a.len());
        assert(addr[2 + k] == padded(packed(a), 14)[k]);
        assert(addr[2 + k] == packed(a)[k]);
        lemma_bit_in_address(addr, a, k, j);
        assert(a[j] == !kb[n + 1 + j]);
    }
}

} // verus!
