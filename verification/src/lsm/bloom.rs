//! Bloom filters over text keys.
use vstd::prelude::*;
use vstd::utf8::encode_utf8;

verus! {

/// Bits that a filter spends on each key.
pub const BLOOM_BITS_PER_KEY: usize = 10;

/// Bits that a key sets.
pub const BLOOM_HASHES: u8 = 7;

/// A set of keys that answers "certainly not" or "maybe".
#[derive(Debug, PartialEq, Eq)]
pub struct BloomFilter {
    pub bits: Vec<u8>,
    pub bit_len: usize,
}

/// The content of a [`BloomFilter`].
pub type BloomView = (Seq<u8>, usize);

impl View for BloomFilter {
    type V = BloomView;

    open spec fn view(&self) -> BloomView {
        (self.bits@, self.bit_len)
    }
}

/// The seeded FNV-1a hash of bytes.
pub open spec fn hash_of(bytes: Seq<u8>, seed: u64) -> u64
    decreases bytes.len(),
{
    if bytes.len() == 0 {
        seed
    } else {
        (hash_of(bytes.drop_last(), seed) ^ bytes.last() as u64).wrapping_mul(0x100_0000_01b3)
    }
}

pub fn hash_with_seed(bytes: &[u8], seed: u64) -> (hash: u64)
    ensures
        hash == hash_of(bytes@, seed),
{
    let mut hash: u64 = seed;
    let mut i: usize = 0;
    assert(bytes@.take(0) =~= Seq::empty());
    while i < bytes.len()
        invariant
            i <= bytes@.len(),
            hash == hash_of(bytes@.take(i as int), seed),
        decreases bytes@.len() - i,
    {
        assert(bytes@.take(i + 1).drop_last() =~= bytes@.take(i as int));
        hash = (hash ^ bytes[i] as u64).wrapping_mul(0x100_0000_01b3);
        i = i + 1;
    }
    assert(bytes@.take(bytes@.len() as int) =~= bytes@);
    hash
}

/// The first hash of a key.
pub open spec fn first_hash(key: Seq<char>) -> u64 {
    hash_of(encode_utf8(key), 0xcbf2_9ce4_8422_2325)
}

/// The second hash of a key, made odd.
pub open spec fn second_hash(key: Seq<char>) -> u64 {
    hash_of(encode_utf8(key), 0x9e37_79b9_7f4a_7c15) | 1
}

/// The position of a key's `i`-th bit among `bit_len`.
pub open spec fn bit_position(key: Seq<char>, i: int, bit_len: usize) -> int {
    first_hash(key).wrapping_add((i as u64).wrapping_mul(second_hash(key))) as usize as int
        % bit_len as int
}

/// Whether a bit of a byte is set.
pub open spec fn bit_of(byte: u8, bit: u8) -> bool {
    byte & (1u8 << bit) != 0
}

/// Whether the bit at a position is set.
pub open spec fn has_bit(bits: Seq<u8>, position: int) -> bool {
    bit_of(bits[position / 8], (position % 8) as u8)
}

/// Whether the filter may hold a key: all of the key's bits are set.
pub open spec fn may_hold(filter: BloomView, key: Seq<char>) -> bool {
    forall|i: int|
        0 <= i < BLOOM_HASHES ==> has_bit(filter.0, #[trigger] bit_position(key, i, filter.1))
}

/// A filter with room for its bits.
pub open spec fn sound(filter: BloomView) -> bool {
    filter.1 > 0 && filter.0.len() * 8 >= filter.1
}

/// Only bits of the key are set in `after` that were not set in `before`, and
/// none is cleared.
pub open spec fn adds_key(before: BloomView, key: Seq<char>, after: BloomView) -> bool {
    &&& after.1 == before.1
    &&& after.0.len() == before.0.len()
    &&& forall|position: int|
        0 <= position < before.0.len() * 8 ==> (#[trigger] has_bit(after.0, position) <==> has_bit(
            before.0,
            position,
        ) || exists|i: int|
            0 <= i < BLOOM_HASHES && position == #[trigger] bit_position(key, i, before.1))
}

/// The number of bits of a filter for `count` keys.
pub open spec fn bits_for_count(count: nat) -> nat {
    if count == 0 {
        10
    } else {
        count * 10
    }
}

/// A bit is set in the filter exactly if it is a bit of one of the keys.
pub open spec fn filter_of(filter: BloomView, keys: Seq<Seq<char>>) -> bool {
    &&& filter.1 == bits_for_count(keys.len())
    &&& filter.0.len() == (bits_for_count(keys.len()) + 7) / 8
    &&& forall|position: int|
        0 <= position < filter.0.len() * 8 ==> (#[trigger] has_bit(filter.0, position) <==> exists|
            k: int,
            i: int,
        |
            0 <= k < keys.len() && 0 <= i < BLOOM_HASHES && position == #[trigger] bit_position(
                keys[k],
                i,
                filter.1,
            ))
}

/// A filter never denies a key that it was made of.
pub proof fn no_false_negatives(filter: BloomView, keys: Seq<Seq<char>>, key: Seq<char>)
    requires
        filter_of(filter, keys),
        keys.contains(key),
    ensures
        may_hold(filter, key),
{
    let k = choose|k: int| 0 <= k < keys.len() && keys[k] == key;
    assert forall|i: int| 0 <= i < BLOOM_HASHES implies has_bit(
        filter.0,
        #[trigger] bit_position(key, i, filter.1),
    ) by {
        let position = bit_position(keys[k], i, filter.1);
        assert(0 <= position < filter.1);
    }
}

proof fn setting_a_bit(byte: u8, set: u8, asked: u8)
    requires
        set < 8,
        asked < 8,
    ensures
        bit_of(byte | (1u8 << set), asked) <==> bit_of(byte, asked) || asked == set,
{
    assert((byte | (1u8 << set)) & (1u8 << asked) != 0 <==> byte & (1u8 << asked) != 0 || asked
        == set) by (bit_vector)
        requires
            set < 8,
            asked < 8,
    ;
}

proof fn zero_has_no_bit(bit: u8)
    requires
        bit < 8,
    ensures
        !bit_of(0, bit),
{
    assert(0u8 & (1u8 << bit) == 0) by (bit_vector);
}

impl BloomFilter {
    /// Whether there is room for the bits.
    pub fn is_sound(&self) -> (is: bool)
        ensures
            is == sound(self@),
    {
        self.bit_len > 0 && self.bits.len() >= (self.bit_len - 1) / 8 + 1
    }

    /// The filter of the given keys.
    pub fn new(keys: &Vec<&str>) -> (filter: Self)
        requires
            keys@.len() * BLOOM_BITS_PER_KEY <= usize::MAX - 7,
        ensures
            sound(filter@),
            filter_of(filter@, keys@.map_values(|key: &str| key@)),
    {
        let count: usize = if keys.len() == 0 {
            1
        } else {
            keys.len()
        };
        let bit_len: usize = count * BLOOM_BITS_PER_KEY;
        let len: usize = (bit_len + 7) / 8;
        let mut bits: Vec<u8> = Vec::new();
        while bits.len() < len
            invariant
                bits@.len() <= len,
                forall|i: int| 0 <= i < bits@.len() ==> bits@[i] == 0,
            decreases len - bits@.len(),
        {
            bits.push(0);
        }
        let mut filter = BloomFilter { bits, bit_len };
        let ghost texts = keys@.map_values(|key: &str| key@);
        proof {
            assert forall|position: int| 0 <= position < filter@.0.len() * 8 implies !#[trigger]
                has_bit(filter@.0, position) by {
                zero_has_no_bit((position % 8) as u8);
            }
        }
        let mut k: usize = 0;
        while k < keys.len()
            invariant
                k <= keys@.len(),
                texts == keys@.map_values(|key: &str| key@),
                sound(filter@),
                filter@.1 == bits_for_count(keys@.len()),
                filter@.0.len() == (bits_for_count(keys@.len()) + 7) / 8,
                forall|position: int|
                    0 <= position < filter@.0.len() * 8 ==> (#[trigger] has_bit(filter@.0, position)
                        <==> exists|j: int, i: int|
                        0 <= j < k && 0 <= i < BLOOM_HASHES && position == #[trigger] bit_position(
                            texts[j],
                            i,
                            filter@.1,
                        )),
            decreases keys@.len() - k,
        {
            let ghost before = filter@;
            filter.insert(keys[k]);
            proof {
                let key = texts[k as int];
                assert forall|position: int| 0 <= position < filter@.0.len() * 8 implies (
                #[trigger] has_bit(filter@.0, position) <==> exists|j: int, i: int|
                    0 <= j < k + 1 && 0 <= i < BLOOM_HASHES && position == #[trigger] bit_position(
                        texts[j],
                        i,
                        filter@.1,
                    )) by {
                    if has_bit(filter@.0, position) {
                        if !has_bit(before.0, position) {
                            let i = choose|i: int|
                                0 <= i < BLOOM_HASHES && position == #[trigger] bit_position(
                                    key,
                                    i,
                                    before.1,
                                );
                            assert(position == bit_position(texts[k as int], i, filter@.1));
                        }
                    }
                    if exists|j: int, i: int|
                        0 <= j < k + 1 && 0 <= i < BLOOM_HASHES && position
                            == #[trigger] bit_position(texts[j], i, filter@.1) {
                        let (j, i) = choose|j: int, i: int|
                            0 <= j < k + 1 && 0 <= i < BLOOM_HASHES && position
                                == #[trigger] bit_position(texts[j], i, filter@.1);
                        if j < k {
                            assert(has_bit(before.0, position));
                        } else {
                            assert(position == bit_position(key, i, before.1));
                        }
                    }
                }
            }
            k = k + 1;
        }
        filter
    }

    /// Sets the bits of a key.
    pub fn insert(&mut self, key: &str)
        requires
            sound(old(self)@),
        ensures
            sound(final(self)@),
            adds_key(old(self)@, key@, final(self)@),
            may_hold(final(self)@, key@),
    {
        let positions = self.bits_for(key);
        let ghost before = self@;
        let mut n: usize = 0;
        while n < positions.len()
            invariant
                n <= positions@.len(),
                positions@.len() == BLOOM_HASHES,
                sound(before),
                forall|i: int|
                    0 <= i < BLOOM_HASHES ==> #[trigger] positions@[i] == bit_position(
                        key@,
                        i,
                        before.1,
                    ),
                self@.1 == before.1,
                self@.0.len() == before.0.len(),
                forall|position: int|
                    0 <= position < before.0.len() * 8 ==> (#[trigger] has_bit(self@.0, position)
                        <==> has_bit(before.0, position) || exists|i: int|
                        0 <= i < n && position == #[trigger] bit_position(key@, i, before.1)),
            decreases positions@.len() - n,
        {
            let bit: usize = positions[n];
            let ghost mid = self@.0;
            assert(bit == bit_position(key@, n as int, before.1));
            let mask: u8 = 1u8 << ((bit % 8) as u8);
            let byte: u8 = self.bits[bit / 8];
            self.bits.set(bit / 8, byte | mask);
            proof {
                assert forall|position: int| 0 <= position < before.0.len() * 8 implies (#[trigger]
                has_bit(self@.0, position) <==> has_bit(mid, position) || position == bit) by {
                    if position / 8 == bit / 8 {
                        setting_a_bit(byte, (bit % 8) as u8, (position % 8) as u8);
                    }
                }
                assert forall|position: int| 0 <= position < before.0.len() * 8 implies (#[trigger]
                has_bit(self@.0, position) <==> has_bit(before.0, position) || exists|i: int|
                    0 <= i < n + 1 && position == #[trigger] bit_position(key@, i, before.1)) by {
                    assert(has_bit(mid, position) <==> has_bit(before.0, position) || exists|i: int|
                        0 <= i < n && position == #[trigger] bit_position(key@, i, before.1));
                }
            }
            n = n + 1;
        }
        proof {
            assert forall|i: int| 0 <= i < BLOOM_HASHES implies has_bit(
                self@.0,
                #[trigger] bit_position(key@, i, self@.1),
            ) by {
                assert(0 <= bit_position(key@, i, before.1) < before.1);
            }
        }
    }

    /// Whether the filter may hold a key; if not, the key is not among those
    /// that it was made of.
    pub fn might_contain(&self, key: &str) -> (maybe: bool)
        requires
            sound(self@),
        ensures
            maybe == may_hold(self@, key@),
    {
        let positions = self.bits_for(key);
        let mut n: usize = 0;
        while n < positions.len()
            invariant
                n <= positions@.len(),
                positions@.len() == BLOOM_HASHES,
                sound(self@),
                forall|i: int|
                    0 <= i < BLOOM_HASHES ==> #[trigger] positions@[i] == bit_position(
                        key@,
                        i,
                        self@.1,
                    ),
                forall|i: int|
                    0 <= i < n ==> has_bit(self@.0, #[trigger] bit_position(key@, i, self@.1)),
            decreases positions@.len() - n,
        {
            let bit: usize = positions[n];
            assert(bit == bit_position(key@, n as int, self@.1));
            let mask: u8 = 1u8 << ((bit % 8) as u8);
            if self.bits[bit / 8] & mask == 0 {
                assert(!has_bit(self@.0, bit_position(key@, n as int, self@.1)));
                return false;
            }
            n = n + 1;
        }
        true
    }

    /// The positions of a key's bits.
    pub fn bits_for(&self, key: &str) -> (positions: Vec<usize>)
        requires
            sound(self@),
        ensures
            positions@.len() == BLOOM_HASHES,
            forall|i: int|
                0 <= i < BLOOM_HASHES ==> #[trigger] positions@[i] == bit_position(
                    key@,
                    i,
                    self@.1,
                ) && positions@[i] < self@.1,
    {
        let h1: u64 = hash_with_seed(key.as_bytes(), 0xcbf2_9ce4_8422_2325);
        let h2: u64 = hash_with_seed(key.as_bytes(), 0x9e37_79b9_7f4a_7c15) | 1;
        let mut positions: Vec<usize> = Vec::new();
        let mut i: u8 = 0;
        while i < BLOOM_HASHES
            invariant
                i <= BLOOM_HASHES,
                sound(self@),
                h1 == first_hash(key@),
                h2 == second_hash(key@),
                positions@.len() == i,
                forall|j: int|
                    0 <= j < i ==> #[trigger] positions@[j] == bit_position(key@, j, self@.1)
                        && positions@[j] < self@.1,
            decreases BLOOM_HASHES - i,
        {
            let hash: u64 = h1.wrapping_add((i as u64).wrapping_mul(h2));
            positions.push((hash as usize) % self.bit_len);
            i = i + 1;
        }
        positions
    }
}

} // verus!
