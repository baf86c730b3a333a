//! Bloom filters of 8192 bits and 8 hash functions.
//!
//! The hash functions come from one 128-bit murmur3 hash of the key and one of the key with a
//! byte 1 appended: four 64-bit base hashes `h`, and the locations
//! `h[i % 2] + i * h[2 + ((i + i % 2) % 4) / 2]`.
//!
//! Wire format: 16 bytes of flags for the words that are zero, 16 bytes of flags for the words
//! that are all ones, then the other words in big-endian order.
use vstd::prelude::*;
use crate::bytes::{
    append_be, be_bytes, be_value, lemma_be_len, lemma_be_round_trip, lemma_pow256_values, read_be,
    to_vec,
};

verus! {

pub const BLOOM_FILTER_BITS: usize = 8192;

pub const BLOOM_FILTER_K: usize = 8;

pub const BLOOM_FILTER_U64S: usize = 128;

pub const BLOOM_FILTER_FLAGS: usize = 16;

// ---------------------------------------------------------------------------
// Hashing
// ---------------------------------------------------------------------------

/// The 128-bit x64 variant of murmur3 on `data`, with seed 0.
pub uninterp spec fn murmur3_128(data: Seq<u8>) -> u128;

/// Calls `murmur3::murmur3_x64_128` with seed 0: the hash is a function of the bytes alone.
/// Reading from a byte slice never fails.
#[verifier::external_body]
fn murmur3_hash(data: &[u8]) -> (r: u128)
    ensures
        r == murmur3_128(data@),
{
    murmur3::murmur3_x64_128(&mut &data[..], 0).unwrap_or(0)
}

/// The four base hashes that two 128-bit hashes hold: low half, high half of each.
pub open spec fn halves(a: u128, b: u128) -> Seq<u64> {
    seq![a as u64, (a >> 64) as u64, b as u64, (b >> 64) as u64]
}

/// Splits two 128-bit hashes into the four base hashes.
pub fn split_hashes(a: u128, b: u128) -> (h: [u64; 4])
    ensures
        h@ == halves(a, b),
{
    let h = [
        #[verifier::truncate]
        (a as u64),
        #[verifier::truncate]
        ((a >> 64) as u64),
        #[verifier::truncate]
        (b as u64),
        #[verifier::truncate]
        ((b >> 64) as u64),
    ];
    assert(h@ =~= halves(a, b));
    h
}

/// The four base hashes of a key.
pub open spec fn base_hashes_of(data: Seq<u8>) -> Seq<u64> {
    halves(murmur3_128(data), murmur3_128(data.push(1)))
}

/// Generates the four base hashes of a key.
pub fn base_hashes(data: &[u8]) -> (h: [u64; 4])
    ensures
        h@ == base_hashes_of(data@),
{
    let result1: u128 = murmur3_hash(data);
    let mut data_with_one: Vec<u8> = to_vec(data);
    data_with_one.push(1);
    let result2: u128 = murmur3_hash(&data_with_one);
    split_hashes(result1, result2)
}

/// The `i`th location of the base hashes `h`, among `m` bits.
pub open spec fn location_of(h: Seq<u64>, i: int, m: int) -> int {
    ((h[i % 2] + i * h[2 + ((i + i % 2) % 4) / 2]) % 0x1_0000_0000_0000_0000) % m
}

/// Calculates the `i`th hash location using the four base hashes.
pub fn location(h: &[u64; 4], i: usize, m: usize) -> (r: usize)
    requires
        i < usize::MAX,
        m > 0,
    ensures
        r == location_of(h@, i as int, m as int),
        r < m,
{
    let ii: u64 = i as u64;
    let base: u64 = h[i % 2];
    let inner: usize = (i + (i % 2)) % 4;
    let hash_idx: usize = 2 + (inner / 2);
    let mult: u64 = h[hash_idx];
    let product: u64 = ii.wrapping_mul(mult);
    let loc: u64 = base.wrapping_add(product);
    proof {
        let big: int = 0x1_0000_0000_0000_0000;
        let full = ii as int * mult as int;
        assert(product as int == full % big);
        assert(loc as int == (base as int + full % big) % big);
        vstd::arithmetic::div_mod::lemma_add_mod_noop_right(base as int, full, big);
    }
    (loc % (m as u64)) as usize
}

/// The bits that stand for the base hashes `h`.
pub open spec fn hash_bits(h: Seq<u64>) -> Set<int> {
    Set::new(|b: int| exists|i: int| 0 <= i < BLOOM_FILTER_K && b == #[trigger] location_of(h, i, 8192))
}

/// The bits that stand for a key.
pub open spec fn key_bits(key: Seq<u8>) -> Set<int> {
    hash_bits(base_hashes_of(key))
}

// ---------------------------------------------------------------------------
// The filter
// ---------------------------------------------------------------------------

/// Bit `p` of a word.
pub open spec fn word_bit(w: u64, p: int) -> bool {
    (w >> (p as u64)) & 1 == 1
}

/// Bit `b` of a sequence of words.
pub open spec fn raw_bit(words: Seq<u64>, b: int) -> bool {
    word_bit(words[b / 64], b % 64)
}

/// The set bits of a sequence of words.
pub open spec fn raw_bits(words: Seq<u64>) -> Set<int> {
    Set::new(|b: int| 0 <= b < 8192 && raw_bit(words, b))
}

/// A Bloom filter. Its view is the set of its bits.
pub struct BloomFilter {
    pub bits: [u64; BLOOM_FILTER_U64S],
}

impl View for BloomFilter {
    type V = Set<int>;

    open spec fn view(&self) -> Set<int> {
        raw_bits(self.bits@)
    }
}

proof fn lemma_set_word_bit(w: u64, o: u64, p: u64)
    requires
        o < 64,
        p < 64,
    ensures
        word_bit(w | (1u64 << o), p as int) == (p == o || word_bit(w, p as int)),
{
    assert(((w | (1u64 << o)) >> p) & 1 == 1 <==> (p == o || (w >> p) & 1 == 1)) by (bit_vector)
        requires
            o < 64,
            p < 64,
    ;
}

proof fn lemma_or_word_bit(v: u64, w: u64, p: u64)
    requires
        p < 64,
    ensures
        word_bit(v | w, p as int) == (word_bit(v, p as int) || word_bit(w, p as int)),
{
    assert(((v | w) >> p) & 1 == 1 <==> ((v >> p) & 1 == 1 || (w >> p) & 1 == 1)) by (bit_vector)
        requires
            p < 64,
    ;
}

/// Two words whose low `n` bits agree and which have no others are equal.
proof fn lemma_word_ext(v: u64, w: u64, n: u64)
    requires
        n <= 64,
        n < 64 ==> v >> n == 0 && w >> n == 0,
        forall|p: int| 0 <= p < n ==> word_bit(v, p) == word_bit(w, p),
    ensures
        v == w,
    decreases n,
{
    if n == 0 {
        assert(v >> 0u64 == v && w >> 0u64 == w) by (bit_vector);
    } else {
        let v1 = v >> 1u64;
        let w1 = w >> 1u64;
        let m = (n - 1) as u64;
        assert((v >> 1u64) >> m == 0 && (w >> 1u64) >> m == 0) by (bit_vector)
            requires
                0 < n <= 64,
                m == n - 1,
                n < 64 ==> v >> n == 0 && w >> n == 0,
        ;
        assert forall|p: int| 0 <= p < m implies word_bit(v1, p) == word_bit(w1, p) by {
            let q = p as u64;
            let q1 = (p + 1) as u64;
            assert((v >> 1u64) >> q == v >> q1 && (w >> 1u64) >> q == w >> q1) by (bit_vector)
                requires
                    q < 63,
                    q1 == q + 1,
            ;
            assert(word_bit(v, p + 1) == word_bit(w, p + 1));
        }
        lemma_word_ext(v1, w1, m);
        assert(word_bit(v, 0) == word_bit(w, 0));
        assert(v == w) by (bit_vector)
            requires
                v >> 1u64 == w >> 1u64,
                ((v >> 0u64) & 1 == 1) == ((w >> 0u64) & 1 == 1),
        ;
    }
}

/// A filter is determined by the set of its bits.
pub proof fn lemma_bits_determine(a: BloomFilter, b: BloomFilter)
    requires
        a@ == b@,
    ensures
        a.bits == b.bits,
{
    assert forall|i: int| 0 <= i < BLOOM_FILTER_U64S implies a.bits[i] == b.bits[i] by {
        assert forall|p: int| 0 <= p < 64 implies word_bit(a.bits[i], p) == word_bit(b.bits[i], p) by {
            let bit = i * 64 + p;
            assert(bit / 64 == i && bit % 64 == p);
            assert(a@.contains(bit) == raw_bit(a.bits@, bit));
            assert(b@.contains(bit) == raw_bit(b.bits@, bit));
        }
        lemma_word_ext(a.bits[i], b.bits[i], 64);
    }
    assert(a.bits =~= b.bits);
}

impl Default for BloomFilter {
    fn default() -> (r: Self)
        ensures
            r@ == Set::<int>::empty(),
    {
        Self::new()
    }
}

impl Clone for BloomFilter {
    fn clone(&self) -> (r: Self)
        ensures
            r == *self,
    {
        BloomFilter { bits: self.bits }
    }
}

impl BloomFilter {
    /// Creates an empty filter.
    pub fn new() -> (r: Self)
        ensures
            r@ == Set::<int>::empty(),
            forall|i: int| 0 <= i < BLOOM_FILTER_U64S ==> r.bits@[i] == 0,
    {
        let r = BloomFilter { bits: [0u64;BLOOM_FILTER_U64S] };
        assert forall|b: int| 0 <= b < 8192 implies !raw_bit(r.bits@, b) by {
            let p = (b % 64) as u64;
            assert(r.bits@[b / 64] == 0);
            assert((0u64 >> p) & 1 == 0) by (bit_vector);
        }
        assert(r@ =~= Set::<int>::empty());
        r
    }

    /// Creates a filter from its words.
    pub fn from_raw(bits: [u64; BLOOM_FILTER_U64S]) -> (r: Self)
        ensures
            r.bits == bits,
    {
        BloomFilter { bits }
    }

    /// The words of the filter.
    pub fn as_raw(&self) -> (r: &[u64; BLOOM_FILTER_U64S])
        ensures
            *r == self.bits,
    {
        &self.bits
    }

    /// Adds a key.
    pub fn add(&mut self, key: &[u8])
        ensures
            final(self)@ == old(self)@.union(key_bits(key@)),
    {
        let h = base_hashes(key);
        self.add_hashes(&h);
    }

    /// Adds the key with the base hashes `h`.
    pub fn add_hashes(&mut self, h: &[u64; 4])
        ensures
            final(self)@ == old(self)@.union(hash_bits(h@)),
    {
        let mut i: usize = 0;
        let ghost so_far = Set::new(|b: int| exists|j: int| 0 <= j < i && b == #[trigger] location_of(h@, j, 8192));
        assert(self@ =~= old(self)@.union(so_far));
        while i < BLOOM_FILTER_K
            invariant
                i <= BLOOM_FILTER_K,
                forall|b: int| #[trigger] self@.contains(b) <==> (old(self)@.contains(b) || exists|j: int|
                    0 <= j < i && b == #[trigger] location_of(h@, j, 8192)),
            decreases BLOOM_FILTER_K - i,
        {
            let bit: usize = location(h, i, BLOOM_FILTER_BITS);
            let ghost before = self@;
            self.set_bit(bit);
            assert(location_of(h@, i as int, 8192) == bit);
            i += 1;
        }
        assert(self@ =~= old(self)@.union(hash_bits(h@)));
    }

    /// Whether a key might be in the filter. `false` means that it is not.
    pub fn test(&self, key: &[u8]) -> (r: bool)
        ensures
            r == key_bits(key@).subset_of(self@),
    {
        let h = base_hashes(key);
        self.test_hashes(&h)
    }

    /// Whether the key with the base hashes `h` might be in the filter.
    pub fn test_hashes(&self, h: &[u64; 4]) -> (r: bool)
        ensures
            r == hash_bits(h@).subset_of(self@),
    {
        let mut i: usize = 0;
        while i < BLOOM_FILTER_K
            invariant
                i <= BLOOM_FILTER_K,
                forall|j: int| 0 <= j < i ==> self@.contains(#[trigger] location_of(h@, j, 8192)),
            decreases BLOOM_FILTER_K - i,
        {
            let bit: usize = location(h, i, BLOOM_FILTER_BITS);
            if !self.get_bit(bit) {
                assert(location_of(h@, i as int, 8192) == bit);
                assert(hash_bits(h@).contains(bit as int));
                return false;
            }
            i += 1;
        }
        true
    }

    /// Merges another filter into this one.
    pub fn merge(&mut self, other: &BloomFilter)
        ensures
            final(self)@ == old(self)@.union(other@),
    {
        let mut i: usize = 0;
        while i < BLOOM_FILTER_U64S
            invariant
                i <= BLOOM_FILTER_U64S,
                forall|j: int| 0 <= j < i ==> self.bits@[j] == old(self).bits@[j] | other.bits@[j],
                forall|j: int| i <= j < BLOOM_FILTER_U64S ==> self.bits@[j] == old(self).bits@[j],
            decreases BLOOM_FILTER_U64S - i,
        {
            self.bits[i] = self.bits[i] | other.bits[i];
            i += 1;
        }
        assert forall|b: int| self@.contains(b) == old(self)@.union(other@).contains(b) by {
            if 0 <= b < 8192 {
                let p = (b % 64) as u64;
                lemma_or_word_bit(old(self).bits@[b / 64], other.bits@[b / 64], p);
            }
        }
        assert(self@ =~= old(self)@.union(other@));
    }

    /// Counts the set bits (for diagnostics).
    pub fn count_ones(&self) -> (n: u32)
        ensures
            n == self@.len(),
            self@.finite(),
    {
        let mut n: u32 = 0;
        let mut b: usize = 0;
        let ghost upto = |m: int| Set::new(|x: int| 0 <= x < m && raw_bit(self.bits@, x));
        assert(upto(0) =~= Set::<int>::empty());
        while b < BLOOM_FILTER_BITS
            invariant
                b <= BLOOM_FILTER_BITS,
                upto == (|m: int| Set::new(|x: int| 0 <= x < m && raw_bit(self.bits@, x))),
                upto(b as int).finite(),
                n == upto(b as int).len(),
                n <= b,
            decreases BLOOM_FILTER_BITS - b,
        {
            if self.get_bit(b) {
                assert(upto(b + 1) =~= upto(b as int).insert(b as int));
                n += 1;
            } else {
                assert(upto(b + 1) =~= upto(b as int));
            }
            b += 1;
        }
        assert(upto(8192) =~= self@);
        n
    }

    /// Sets a bit.
    pub fn set_bit(&mut self, bit: usize)
        requires
            bit < BLOOM_FILTER_BITS,
        ensures
            final(self)@ == old(self)@.insert(bit as int),
    {
        let idx: usize = bit / 64;
        let offset: usize = bit % 64;
        let o: u64 = offset as u64;
        self.bits[idx] = self.bits[idx] | (1u64 << o);
        assert forall|b: int| 0 <= b < 8192 implies raw_bit(self.bits@, b) == (b == bit || raw_bit(
            old(self).bits@,
            b,
        )) by {
            if b / 64 == idx {
                lemma_set_word_bit(old(self).bits@[idx as int], o, (b % 64) as u64);
            }
        }
        assert(self@ =~= old(self)@.insert(bit as int));
    }

    /// Reads a bit.
    pub fn get_bit(&self, bit: usize) -> (r: bool)
        requires
            bit < BLOOM_FILTER_BITS,
        ensures
            r == self@.contains(bit as int),
    {
        let idx: usize = bit / 64;
        let offset: usize = bit % 64;
        let o: u64 = offset as u64;
        (self.bits[idx] >> o) & 1 == 1
    }

    /// Whether two filters are the same.
    pub fn equal(&self, other: &BloomFilter) -> (r: bool)
        ensures
            r == (self@ == other@),
            r == (*self == *other),
    {
        let mut i: usize = 0;
        while i < BLOOM_FILTER_U64S
            invariant
                i <= BLOOM_FILTER_U64S,
                forall|j: int| 0 <= j < i ==> self.bits@[j] == other.bits@[j],
            decreases BLOOM_FILTER_U64S - i,
        {
            if self.bits[i] != other.bits[i] {
                proof {
                    if self@ == other@ {
                        lemma_bits_determine(*self, *other);
                    }
                }
                return false;
            }
            i += 1;
        }
        assert(self.bits =~= other.bits) by {
            assert forall|j: int| 0 <= j < BLOOM_FILTER_U64S implies self.bits[j] == other.bits[j] by {
                assert(self.bits@[j] == other.bits@[j]);
            }
        }
        true
    }
}

// ---------------------------------------------------------------------------
// Laws of the filter
// ---------------------------------------------------------------------------

/// A key that was added is found: a filter gives no false negatives.
pub proof fn lemma_added_is_found(filter: Set<int>, key: Seq<u8>)
    ensures
        key_bits(key).subset_of(filter.union(key_bits(key))),
{
}

/// The first `n` of the bits that stand for the key with the base hashes `h`.
spec fn first_bits(h: Seq<u64>, n: int) -> Set<int> {
    Set::new(|b: int| exists|i: int| 0 <= i < n && b == #[trigger] location_of(h, i, 8192))
}

proof fn lemma_few_bits(filter: Set<int>, h: Seq<u64>, n: nat)
    requires
        filter.finite(),
    ensures
        filter.union(first_bits(h, n as int)).finite(),
        filter.len() <= filter.union(first_bits(h, n as int)).len() <= filter.len() + n,
    decreases n,
{
    if n == 0 {
        assert(filter.union(first_bits(h, 0)) =~= filter);
    } else {
        lemma_few_bits(filter, h, (n - 1) as nat);
        let new = location_of(h, n - 1, 8192);
        let old_bits = first_bits(h, n - 1);
        assert forall|b: int| #[trigger]
            first_bits(h, n as int).contains(b) == (old_bits.contains(b) || b == new) by {
            if first_bits(h, n as int).contains(b) && b != new {
                let i = choose|i: int| 0 <= i < n && b == #[trigger] location_of(h, i, 8192);
                assert(0 <= i < n - 1);
            }
        }
        assert(filter.union(first_bits(h, n as int)) =~= filter.union(old_bits).insert(new));
    }
}

/// Adding a key sets at most eight bits that were not set, and clears none.
pub proof fn lemma_add_sets_few_bits(filter: Set<int>, key: Seq<u8>)
    requires
        filter.finite(),
    ensures
        filter.subset_of(filter.union(key_bits(key))),
        filter.len() <= filter.union(key_bits(key)).len() <= filter.len() + 8,
{
    lemma_few_bits(filter, base_hashes_of(key), 8);
    assert(key_bits(key) =~= first_bits(base_hashes_of(key), 8));
}

/// A key that is found stays found whatever is added or merged.
pub proof fn lemma_found_stays_found(filter: Set<int>, other: Set<int>, key: Seq<u8>)
    requires
        key_bits(key).subset_of(filter),
    ensures
        key_bits(key).subset_of(filter.union(other)),
        key_bits(key).subset_of(other.union(filter)),
{
}

/// A filter without bits finds nothing, and every key has its bits among those of a filter.
pub proof fn lemma_blank_finds_nothing(key: Seq<u8>)
    ensures
        !key_bits(key).subset_of(Set::<int>::empty()),
        forall|b: int| #[trigger] key_bits(key).contains(b) ==> 0 <= b < 8192,
{
    let h = base_hashes_of(key);
    let b = location_of(h, 0, 8192);
    assert(key_bits(key).contains(b));
}

/// Merging does not depend on the order of the filters, nor on how often one is merged.
pub proof fn lemma_merge_is_a_join(a: Set<int>, b: Set<int>, c: Set<int>)
    ensures
        a.union(b) == b.union(a),
        a.union(b).union(c) == a.union(b.union(c)),
        a.union(b).union(b) == a.union(b),
{
    assert(a.union(b) =~= b.union(a));
    assert(a.union(b).union(c) =~= a.union(b.union(c)));
    assert(a.union(b).union(b) =~= a.union(b));
}

// ---------------------------------------------------------------------------
// Wire format
// ---------------------------------------------------------------------------

/// What the `k`th flag of a byte is worth; the first is the highest bit.
pub open spec fn flag_weight(k: int) -> int {
    if k == 0 {
        128
    } else if k == 1 {
        64
    } else if k == 2 {
        32
    } else if k == 3 {
        16
    } else if k == 4 {
        8
    } else if k == 5 {
        4
    } else if k == 6 {
        2
    } else {
        1
    }
}

/// Whether the `k`th flag of a byte is set.
pub open spec fn has_flag(b: u8, k: int) -> bool {
    (b as int / flag_weight(k)) % 2 == 1
}

/// What the flag of word `i` adds to its byte, if the word equals `v`.
pub open spec fn flag_for(words: Seq<u64>, i: int, v: u64) -> int {
    if words[i] == v {
        flag_weight(i % 8)
    } else {
        0
    }
}

/// The `j`th byte of the flags that mark the words equal to `v`.
pub open spec fn flag_byte(words: Seq<u64>, j: int, v: u64) -> u8 {
    (flag_for(words, 8 * j, v) + flag_for(words, 8 * j + 1, v) + flag_for(words, 8 * j + 2, v)
        + flag_for(words, 8 * j + 3, v) + flag_for(words, 8 * j + 4, v) + flag_for(
        words,
        8 * j + 5,
        v,
    ) + flag_for(words, 8 * j + 6, v) + flag_for(words, 8 * j + 7, v)) as u8
}

/// The flags that mark the words equal to `v`.
pub open spec fn flag_bytes(words: Seq<u64>, v: u64) -> Seq<u8> {
    Seq::new(16, |j: int| flag_byte(words, j, v))
}

/// The words from `i` on that no flag marks, in big-endian order.
pub open spec fn kept_bytes(words: Seq<u64>, i: int) -> Seq<u8>
    decreases words.len() - i,
{
    if i >= words.len() {
        Seq::empty()
    } else if words[i] == 0 || words[i] == u64::MAX {
        kept_bytes(words, i + 1)
    } else {
        be_bytes(words[i] as nat, 8) + kept_bytes(words, i + 1)
    }
}

/// The encoding of a filter.
pub open spec fn bloom_bytes(words: Seq<u64>) -> Seq<u8> {
    flag_bytes(words, 0) + flag_bytes(words, u64::MAX) + kept_bytes(words, 0)
}

/// What can be wrong with the encoding of a filter.
pub enum BloomFault {
    TooShort,
    BothFlags,
    Missing,
    Extra,
}

/// The words from `i` on, read with the two sets of flags off the bytes `rest`.
pub open spec fn unpack(f0: Seq<u8>, f1: Seq<u8>, rest: Seq<u8>, i: int) -> Result<
    Seq<u64>,
    BloomFault,
>
    decreases 128 - i,
{
    if i >= 128 {
        if rest.len() == 0 {
            Ok(Seq::empty())
        } else {
            Err(BloomFault::Extra)
        }
    } else {
        let zero = has_flag(f0[i / 8], i % 8);
        let ones = has_flag(f1[i / 8], i % 8);
        if zero && ones {
            Err(BloomFault::BothFlags)
        } else if !zero && !ones && rest.len() < 8 {
            Err(BloomFault::Missing)
        } else {
            let (word, left) = if zero {
                (0u64, rest)
            } else if ones {
                (u64::MAX, rest)
            } else {
                (be_value(rest.take(8)) as u64, rest.skip(8))
            };
            match unpack(f0, f1, left, i + 1) {
                Ok(words) => Ok(seq![word] + words),
                Err(e) => Err(e),
            }
        }
    }
}

/// Reads the encoding of a filter.
pub open spec fn parse_bloom(data: Seq<u8>) -> Result<Seq<u64>, BloomFault> {
    if data.len() < 32 {
        Err(BloomFault::TooShort)
    } else {
        unpack(data.take(16), data.subrange(16, 32), data.skip(32), 0)
    }
}

/// Error type for bloom filter operations.
#[derive(Clone, Copy, Debug, PartialEq, Eq)]
pub enum BloomError {
    Decode(&'static str),
}

/// The message that goes with a fault.
pub open spec fn fault_text(f: BloomFault) -> Seq<char> {
    match f {
        BloomFault::TooShort => "Input too short"@,
        BloomFault::BothFlags => "Chunk marked as both zero and all-ones"@,
        BloomFault::Missing => "Not enough data for non-compressed chunk"@,
        BloomFault::Extra => "Extra data after decoding"@,
    }
}

fn weight_of(k: usize) -> (r: u8)
    requires
        k < 8,
    ensures
        r == flag_weight(k as int),
{
    if k == 0 {
        128
    } else if k == 1 {
        64
    } else if k == 2 {
        32
    } else if k == 3 {
        16
    } else if k == 4 {
        8
    } else if k == 5 {
        4
    } else if k == 6 {
        2
    } else {
        1
    }
}

fn flag_of(words: &[u64; BLOOM_FILTER_U64S], i: usize, v: u64) -> (r: u8)
    requires
        i < BLOOM_FILTER_U64S,
    ensures
        r == flag_for(words@, i as int, v),
        r == 0 || r == flag_weight(i as int % 8),
{
    if words[i] == v {
        weight_of(i % 8)
    } else {
        0
    }
}

/// Appends the flags that mark the words equal to `v`.
fn append_flags(out: &mut Vec<u8>, words: &[u64; BLOOM_FILTER_U64S], v: u64)
    ensures
        final(out)@ == old(out)@ + flag_bytes(words@, v),
{
    let mut j: usize = 0;
    while j < BLOOM_FILTER_FLAGS
        invariant
            j <= BLOOM_FILTER_FLAGS,
            out@ == old(out)@ + flag_bytes(words@, v).take(j as int),
        decreases BLOOM_FILTER_FLAGS - j,
    {
        let ghost before = out@;
        let b: u8 = flag_of(words, 8 * j, v) + flag_of(words, 8 * j + 1, v) + flag_of(
            words,
            8 * j + 2,
            v,
        ) + flag_of(words, 8 * j + 3, v) + flag_of(words, 8 * j + 4, v) + flag_of(
            words,
            8 * j + 5,
            v,
        ) + flag_of(words, 8 * j + 6, v) + flag_of(words, 8 * j + 7, v);
        out.push(b);
        assert(b == flag_byte(words@, j as int, v));
        assert(out@ =~= old(out)@ + flag_bytes(words@, v).take(j + 1));
        j += 1;
    }
    assert(flag_bytes(words@, v).take(16) =~= flag_bytes(words@, v));
}

/// Encodes a filter's words with compression: 16 bytes of flags for zero words, 16 bytes of
/// flags for words of all ones, then the other words in big-endian order.
pub fn encode_bloom(data: &[u64; BLOOM_FILTER_U64S]) -> (out: Vec<u8>)
    ensures
        out@ == bloom_bytes(data@),
        out@.len() == 32 + 8 * mixed(data@),
{
    let mut out: Vec<u8> = Vec::new();
    append_flags(&mut out, data, 0);
    append_flags(&mut out, data, u64::MAX);
    let ghost flags = out@;
    assert(flags =~= flag_bytes(data@, 0) + flag_bytes(data@, u64::MAX));
    let mut i: usize = 0;
    while i < BLOOM_FILTER_U64S
        invariant
            i <= BLOOM_FILTER_U64S,
            out@ + kept_bytes(data@, i as int) == flags + kept_bytes(data@, 0),
        decreases BLOOM_FILTER_U64S - i,
    {
        let ghost before = out@;
        let u: u64 = data[i];
        if u != 0 && u != u64::MAX {
            append_be(&mut out, u, 8);
        }
        assert(out@ + kept_bytes(data@, i + 1) =~= before + kept_bytes(data@, i as int));
        i += 1;
    }
    assert(kept_bytes(data@, 128) =~= Seq::empty());
    assert(out@ =~= bloom_bytes(data@));
    proof {
        lemma_kept_len(data@, 0);
        assert(data@.skip(0) =~= data@);
    }
    out
}

fn flag_is_set(b: u8, k: usize) -> (r: bool)
    requires
        k < 8,
    ensures
        r == has_flag(b, k as int),
{
    (b / weight_of(k)) % 2 == 1
}

/// Decodes a filter's words.
pub fn decode_bloom(data: &[u8]) -> (r: Result<[u64; BLOOM_FILTER_U64S], BloomError>)
    ensures
        match parse_bloom(data@) {
            Ok(words) => r matches Ok(a) && a@ == words,
            Err(f) => r matches Err(BloomError::Decode(m)) && m@ == fault_text(f),
        },
{
    if data.len() < BLOOM_FILTER_FLAGS * 2 {
        return Err(BloomError::Decode("Input too short"));
    }
    let ghost f0 = data@.take(16);
    let ghost f1 = data@.subrange(16, 32);
    let mut result = [0u64;BLOOM_FILTER_U64S];
    let mut at: usize = 32;
    let mut i: usize = 0;
    assert(result@.take(0) =~= Seq::empty());
    proof {
        match unpack(f0, f1, data@.skip(32), 0) {
            Ok(words) => {
                assert(result@.take(0) + words =~= words);
            },
            Err(_) => {},
        }
    }
    while i < BLOOM_FILTER_U64S
        invariant
            data.len() >= 32,
            32 <= at <= data.len(),
            i <= BLOOM_FILTER_U64S,
            f0 == data@.take(16),
            f1 == data@.subrange(16, 32),
            parse_bloom(data@) == (match unpack(f0, f1, data@.skip(at as int), i as int) {
                Ok(words) => Ok(result@.take(i as int) + words),
                Err(e) => Err(e),
            }),
        decreases BLOOM_FILTER_U64S - i,
    {
        let zero = flag_is_set(data[i / 8], i % 8);
        let ones = flag_is_set(data[16 + i / 8], i % 8);
        let ghost rest = data@.skip(at as int);
        let ghost before = result@;
        if zero && ones {
            return Err(BloomError::Decode("Chunk marked as both zero and all-ones"));
        }
        let word: u64;
        if zero {
            word = 0;
        } else if ones {
            word = u64::MAX;
        } else {
            if data.len() - at < 8 {
                return Err(BloomError::Decode("Not enough data for non-compressed chunk"));
            }
            word = read_be(data, at, 8);
            assert(data@.subrange(at as int, at + 8) =~= rest.take(8));
            assert(data@.skip(at + 8) =~= rest.skip(8));
            at += 8;
        }
        result[i] = word;
        proof {
            match unpack(f0, f1, data@.skip(at as int), i + 1) {
                Ok(words) => {
                    assert(result@.take(i + 1) + words =~= before.take(i as int) + (seq![word] + words));
                },
                Err(_) => {},
            }
        }
        i += 1;
    }
    if at != data.len() {
        return Err(BloomError::Decode("Extra data after decoding"));
    }
    assert(result@.take(128) + Seq::<u64>::empty() =~= result@);
    Ok(result)
}

/// The binary digits of a byte.
proof fn lemma_binary_digits(
    b: int,
    a0: int,
    a1: int,
    a2: int,
    a3: int,
    a4: int,
    a5: int,
    a6: int,
    a7: int,
)
    requires
        0 <= a0 <= 1,
        0 <= a1 <= 1,
        0 <= a2 <= 1,
        0 <= a3 <= 1,
        0 <= a4 <= 1,
        0 <= a5 <= 1,
        0 <= a6 <= 1,
        0 <= a7 <= 1,
        b == 128 * a0 + 64 * a1 + 32 * a2 + 16 * a3 + 8 * a4 + 4 * a5 + 2 * a6 + a7,
    ensures
        (b / 128) % 2 == a0,
        (b / 64) % 2 == a1,
        (b / 32) % 2 == a2,
        (b / 16) % 2 == a3,
        (b / 8) % 2 == a4,
        (b / 4) % 2 == a5,
        (b / 2) % 2 == a6,
        b % 2 == a7,
{
    assert(b / 128 == a0);
    assert(b / 64 == 2 * a0 + a1);
    assert(b / 32 == 4 * a0 + 2 * a1 + a2);
    assert(b / 16 == 8 * a0 + 4 * a1 + 2 * a2 + a3);
    assert(b / 8 == 16 * a0 + 8 * a1 + 4 * a2 + 2 * a3 + a4);
    assert(b / 4 == 32 * a0 + 16 * a1 + 8 * a2 + 4 * a3 + 2 * a4 + a5);
    assert(b / 2 == 64 * a0 + 32 * a1 + 16 * a2 + 8 * a3 + 4 * a4 + 2 * a5 + a6);
}

proof fn lemma_flag_for(words: Seq<u64>, j: int, k: int, v: u64) -> (a: int)
    requires
        0 <= k < 8,
    ensures
        a == (if words[8 * j + k] == v {
            1int
        } else {
            0int
        }),
        flag_for(words, 8 * j + k, v) == flag_weight(k) * a,
{
    assert((8 * j + k) % 8 == k);
    if words[8 * j + k] == v {
        assert(flag_weight(k) * 1 == flag_weight(k));
        1
    } else {
        assert(flag_weight(k) * 0 == 0);
        0
    }
}

proof fn lemma_flag_bytes(words: Seq<u64>, i: int, v: u64)
    requires
        words.len() == 128,
        0 <= i < 128,
    ensures
        has_flag(flag_bytes(words, v)[i / 8], i % 8) == (words[i] == v),
{
    let j = i / 8;
    let k = i % 8;
    let b = flag_bytes(words, v)[j];
    let a0 = lemma_flag_for(words, j, 0, v);
    let a1 = lemma_flag_for(words, j, 1, v);
    let a2 = lemma_flag_for(words, j, 2, v);
    let a3 = lemma_flag_for(words, j, 3, v);
    let a4 = lemma_flag_for(words, j, 4, v);
    let a5 = lemma_flag_for(words, j, 5, v);
    let a6 = lemma_flag_for(words, j, 6, v);
    let a7 = lemma_flag_for(words, j, 7, v);
    lemma_binary_digits(b as int, a0, a1, a2, a3, a4, a5, a6, a7);
    assert(i == 8 * j + k);
}

proof fn lemma_unpack_round_trip(words: Seq<u64>, i: int)
    requires
        words.len() == 128,
        0 <= i <= 128,
    ensures
        unpack(flag_bytes(words, 0), flag_bytes(words, u64::MAX), kept_bytes(words, i), i) == Ok::<
            Seq<u64>,
            BloomFault,
        >(words.skip(i)),
    decreases 128 - i,
{
    if i == 128 {
        assert(words.skip(128) =~= Seq::empty());
    } else {
        lemma_flag_bytes(words, i, 0);
        lemma_flag_bytes(words, i, u64::MAX);
        lemma_unpack_round_trip(words, i + 1);
        let rest = kept_bytes(words, i);
        assert(words.skip(i) =~= seq![words[i]] + words.skip(i + 1));
        if words[i] != 0 && words[i] != u64::MAX {
            lemma_pow256_values();
            lemma_be_round_trip(words[i] as nat, 8);
            assert(rest.take(8) =~= be_bytes(words[i] as nat, 8));
            assert(rest.skip(8) =~= kept_bytes(words, i + 1));
        }
    }
}

/// Decoding gives back the words that were encoded, for every filter.
pub proof fn lemma_bloom_round_trip(words: Seq<u64>)
    requires
        words.len() == 128,
    ensures
        parse_bloom(bloom_bytes(words)) == Ok::<Seq<u64>, BloomFault>(words),
{
    let b = bloom_bytes(words);
    assert(b.take(16) =~= flag_bytes(words, 0));
    assert(b.subrange(16, 32) =~= flag_bytes(words, u64::MAX));
    assert(b.skip(32) =~= kept_bytes(words, 0));
    lemma_unpack_round_trip(words, 0);
    assert(words.skip(0) =~= words);
}

/// How many words are neither zero nor all ones.
pub open spec fn mixed(words: Seq<u64>) -> nat
    decreases words.len(),
{
    if words.len() == 0 {
        0
    } else if words[0] == 0 || words[0] == u64::MAX {
        mixed(words.drop_first())
    } else {
        1 + mixed(words.drop_first())
    }
}

proof fn lemma_kept_len(words: Seq<u64>, i: int)
    requires
        0 <= i <= words.len(),
    ensures
        kept_bytes(words, i).len() == 8 * mixed(words.skip(i)),
    decreases words.len() - i,
{
    if i < words.len() {
        lemma_kept_len(words, i + 1);
        lemma_be_len(words[i] as nat, 8);
        assert(words.skip(i).drop_first() =~= words.skip(i + 1));
    }
}

proof fn lemma_unpacked_len(f0: Seq<u8>, f1: Seq<u8>, rest: Seq<u8>, i: int)
    requires
        unpack(f0, f1, rest, i) is Ok,
    ensures
        rest.len() >= 8 * mixed(unpack(f0, f1, rest, i)->Ok_0),
    decreases 128 - i,
{
    if i < 128 {
        let zero = has_flag(f0[i / 8], i % 8);
        let ones = has_flag(f1[i / 8], i % 8);
        let left = if zero || ones {
            rest
        } else {
            rest.skip(8)
        };
        lemma_unpacked_len(f0, f1, left, i + 1);
        let words = unpack(f0, f1, rest, i)->Ok_0;
        assert(words.drop_first() =~= unpack(f0, f1, left, i + 1)->Ok_0);
    }
}

/// The encoding takes eight bytes for each word that is neither zero nor all ones, and thirty-two
/// for the flags. No shorter bytes decode to the same filter.
pub proof fn lemma_encoding_is_shortest(words: Seq<u64>, data: Seq<u8>)
    requires
        parse_bloom(data) == Ok::<Seq<u64>, BloomFault>(words),
    ensures
        bloom_bytes(words).len() == 32 + 8 * mixed(words),
        data.len() >= bloom_bytes(words).len(),
{
    lemma_kept_len(words, 0);
    assert(words.skip(0) =~= words);
    lemma_unpacked_len(data.take(16), data.subrange(16, 32), data.skip(32), 0);
}

/// A key stands for eight places of a filter: with the low and the high half of the hash of the key
/// as `a` and `b`, and those of the hash of the key and a byte 1 as `c` and `d`, they are `a`,
/// `b + d`, `a + 2 d`, `b + 3 c`, `a + 4 c`, `b + 5 d`, `a + 6 d` and `b + 7 c`, in sixty-four bits
/// and modulo 8192. It stands for no other place.
pub proof fn lemma_key_has_eight_places(key: Seq<u8>, x: int)
    ensures
        ({
            let h = murmur3_128(key);
            let g = murmur3_128(key + seq![1u8]);
            let a = (h as u64) as int;
            let b = ((h >> 64) as u64) as int;
            let c = (g as u64) as int;
            let d = ((g >> 64) as u64) as int;
            let m = 18446744073709551616int;
            key_bits(key).contains(x) <==> {
                ||| x == a % m % 8192
                ||| x == (b + d) % m % 8192
                ||| x == (a + 2 * d) % m % 8192
                ||| x == (b + 3 * c) % m % 8192
                ||| x == (a + 4 * c) % m % 8192
                ||| x == (b + 5 * d) % m % 8192
                ||| x == (a + 6 * d) % m % 8192
                ||| x == (b + 7 * c) % m % 8192
            }
        }),
{
    assert(key.push(1) =~= key + seq![1u8]);
    let h = base_hashes_of(key);
    assert(location_of(h, 0, 8192) == (h[0] as int) % 0x1_0000_0000_0000_0000 % 8192);
    assert(location_of(h, 1, 8192) == (h[1] + h[3]) % 0x1_0000_0000_0000_0000 % 8192);
    assert(location_of(h, 2, 8192) == (h[0] + 2 * h[3]) % 0x1_0000_0000_0000_0000 % 8192);
    assert(location_of(h, 3, 8192) == (h[1] + 3 * h[2]) % 0x1_0000_0000_0000_0000 % 8192);
    assert(location_of(h, 4, 8192) == (h[0] + 4 * h[2]) % 0x1_0000_0000_0000_0000 % 8192);
    assert(location_of(h, 5, 8192) == (h[1] + 5 * h[3]) % 0x1_0000_0000_0000_0000 % 8192);
    assert(location_of(h, 6, 8192) == (h[0] + 6 * h[3]) % 0x1_0000_0000_0000_0000 % 8192);
    assert(location_of(h, 7, 8192) == (h[1] + 7 * h[2]) % 0x1_0000_0000_0000_0000 % 8192);
    if key_bits(key).contains(x) {
        let i = choose|i: int| 0 <= i < BLOOM_FILTER_K && x == #[trigger] location_of(h, i, 8192);
        assert(i == 0 || i == 1 || i == 2 || i == 3 || i == 4 || i == 5 || i == 6 || i == 7);
    }
}

} // verus!
