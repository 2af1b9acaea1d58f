//! A Bloom filter over byte-string keys.
//!
//! Two hash functions, FNV-1a and djb2, are combined by double hashing: the
//! `i`-th position of a key is `fnv_1a(key) + i * djb2(key)`, modulo 2^64 and
//! then modulo the number of bits.

use vstd::prelude::*;

use crate::encoding::{copy_range, get_le, put_bytes, put_le};
use crate::encoding::{
    le_bytes, le_value, lemma_capacity, lemma_le_bytes_len, lemma_le_value_of_bytes,
};

verus! {

/// The 64-bit FNV-1a hash.
pub open spec fn fnv_1a_of(key: Seq<u8>) -> u64
    decreases key.len(),
{
    if key.len() == 0 {
        14695981039346656037
    } else {
        (((fnv_1a_of(key.drop_last()) ^ (key.last() as u64)) * 1099511628211)
            % 0x1_0000_0000_0000_0000) as u64
    }
}

/// The 64-bit djb2 hash.
pub open spec fn djb2_of(key: Seq<u8>) -> u64
    decreases key.len(),
{
    if key.len() == 0 {
        5381
    } else {
        ((33 * djb2_of(key.drop_last()) + key.last()) % 0x1_0000_0000_0000_0000) as u64
    }
}

/// The `i`-th of a key's positions in a filter of `m` bits.
pub open spec fn position(key: Seq<u8>, i: int, m: nat) -> int {
    ((fnv_1a_of(key) + i * djb2_of(key)) % 0x1_0000_0000_0000_0000) % (m as int)
}

/// The positions of a key in a filter of `m` bits with `k` hash functions.
pub open spec fn positions(key: Seq<u8>, k: nat, m: nat) -> Set<int> {
    Set::new(|j: int| exists|i: int| 0 <= i < k && j == #[trigger] position(key, i, m))
}

/// The positions of all of `keys`.
pub open spec fn all_positions(keys: Seq<Seq<u8>>, k: nat, m: nat) -> Set<int>
    decreases keys.len(),
{
    if keys.len() == 0 {
        Set::empty()
    } else {
        all_positions(keys.drop_last(), k, m).union(positions(keys.last(), k, m))
    }
}

/// How many bytes hold `m` bits.
pub open spec fn bytes_for(m: nat) -> nat {
    (m + 7) / 8
}

/// Whether bit `j` is set, counting from the low bit of the first byte.
pub open spec fn bit(bits: Seq<u8>, j: int) -> bool {
    (bits[j / 8] >> ((j % 8) as u8)) & 1 == 1
}

/// The set bits of a bit array.
pub open spec fn bits_set(bits: Seq<u8>) -> Set<int> {
    Set::new(|j: int| 0 <= j < 8 * bits.len() && bit(bits, j))
}

/// The byte whose bits are the members of `set` from `base` to `base + 7`.
pub open spec fn packed_byte(set: Set<int>, base: int) -> u8 {
    ((if set.contains(base) { 1int } else { 0 }) + (if set.contains(base + 1) { 2int } else { 0 })
        + (if set.contains(base + 2) { 4int } else { 0 }) + (if set.contains(base + 3) { 8int } else { 0 })
        + (if set.contains(base + 4) { 16int } else { 0 }) + (if set.contains(base + 5) { 32int } else { 0 })
        + (if set.contains(base + 6) { 64int } else { 0 }) + (if set.contains(base + 7) { 128int } else { 0 })) as u8
}

/// The bit array of `len` bytes in which exactly the members of `set` are set.
pub open spec fn packed(set: Set<int>, len: nat) -> Seq<u8> {
    Seq::new(len, |b: int| packed_byte(set, 8 * b))
}

/// A filter with `k` hash functions over `m` bits.
#[derive(Debug)]
pub struct BloomFilter {
    pub bits: Vec<u8>,
    pub k: usize,
    pub m: usize,
}

/// A filter, as it occurs in specifications.
pub struct Filter {
    pub bits: Seq<u8>,
    pub k: nat,
    pub m: nat,
}

impl Filter {
    /// The bit array has the right length, and there are bits to set wherever
    /// there are hash functions to set them.
    pub open spec fn wf(self) -> bool {
        &&& self.bits.len() == bytes_for(self.m)
        &&& self.k > 0 ==> self.m > 0
    }

    /// Whether the filter admits the key: every one of its bits is set.
    pub open spec fn admits(self, key: Seq<u8>) -> bool {
        positions(key, self.k, self.m).subset_of(bits_set(self.bits))
    }

    /// The filter's serialized form.
    pub open spec fn encoded(self) -> Seq<u8> {
        le_bytes(self.k, 8) + le_bytes(self.m, 8) + self.bits
    }
}

/// The filter with the key's bits set as well.
pub open spec fn inserted(filter: Filter, key: Seq<u8>) -> Filter {
    Filter {
        bits: packed(
            bits_set(filter.bits).union(positions(key, filter.k, filter.m)),
            filter.bits.len(),
        ),
        k: filter.k,
        m: filter.m,
    }
}

/// The filter that the keys give when they are inserted into an empty one.
pub open spec fn filter_of(keys: Seq<Seq<u8>>, m: nat, k: nat) -> Filter {
    Filter { bits: packed(all_positions(keys, k, m), bytes_for(m)), k, m }
}

/// The filter that `bytes` hold; `None` if they hold none.
pub open spec fn decoded_filter(bytes: Seq<u8>) -> Option<Filter> {
    if bytes.len() < 16 {
        None
    } else {
        let filter = Filter {
            bits: bytes.skip(16),
            k: le_value(bytes.subrange(0, 8)),
            m: le_value(bytes.subrange(8, 16)),
        };
        if filter.wf() && filter.k <= usize::MAX && filter.m <= usize::MAX {
            Some(filter)
        } else {
            None
        }
    }
}

impl View for BloomFilter {
    type V = Filter;

    open spec fn view(&self) -> Filter {
        Filter { bits: self.bits@, k: self.k as nat, m: self.m as nat }
    }
}

impl BloomFilter {
    pub open spec fn wf(&self) -> bool {
        self@.wf()
    }

    /// An empty filter with `k` hash functions over `m` bits.
    pub fn new(m: usize, k: usize) -> (filter: BloomFilter)
        requires
            k > 0 ==> m > 0,
        ensures
            filter.wf(),
            filter@ == filter_of(Seq::empty(), m as nat, k as nat),
            filter.m == m,
            filter.k == k,
            forall|b: int| 0 <= b < filter.bits@.len() ==> filter.bits@[b] == 0,
            bits_set(filter.bits@) == Set::<int>::empty(),
    {
        let byte_len: usize = m / 8 + (if m % 8 == 0 { 0usize } else { 1usize });
        let bits: Vec<u8> = vec![0u8; byte_len];
        proof {
            assert forall|j: int| 0 <= j < 8 * bits@.len() implies !bit(bits@, j) by {
                let t = (j % 8) as u8;
                assert((0u8 >> t) & 1 == 0) by (bit_vector);
            }
            assert(bits_set(bits@) =~= Set::<int>::empty());
            assert(bits@ =~= packed(Set::<int>::empty(), bytes_for(m as nat)));
        }
        BloomFilter { bits, k, m }
    }

    /// FNV-1a.
    pub fn fnv_1a(key: &[u8]) -> (hash: u64)
        ensures
            hash == fnv_1a_of(key@),
    {
        let mut hash: u64 = 14695981039346656037;
        let mut i: usize = 0;
        assert(key@.take(0) =~= Seq::<u8>::empty());
        while i < key.len()
            invariant
                0 <= i <= key.len(),
                hash == fnv_1a_of(key@.take(i as int)),
            decreases key.len() - i,
        {
            assert(key@.take(i + 1).drop_last() =~= key@.take(i as int));
            hash = hash ^ (key[i] as u64);
            hash = hash.wrapping_mul(1099511628211);
            i = i + 1;
        }
        assert(key@.take(key.len() as int) =~= key@);
        hash
    }

    /// djb2.
    pub fn djb2(key: &[u8]) -> (hash: u64)
        ensures
            hash == djb2_of(key@),
    {
        let mut hash: u64 = 5381;
        let mut i: usize = 0;
        assert(key@.take(0) =~= Seq::<u8>::empty());
        while i < key.len()
            invariant
                0 <= i <= key.len(),
                hash == djb2_of(key@.take(i as int)),
            decreases key.len() - i,
        {
            assert(key@.take(i + 1).drop_last() =~= key@.take(i as int));
            assert((hash << 5) == (hash * 32) % 0x1_0000_0000_0000_0000) by (bit_vector);
            hash = (hash << 5).wrapping_add(hash).wrapping_add(key[i] as u64);
            i = i + 1;
        }
        assert(key@.take(key.len() as int) =~= key@);
        hash
    }

    /// The `i`-th position of the key with hashes `h1` and `h2`.
    fn position_of(&self, h1: u64, h2: u64, i: usize, key: Ghost<Seq<u8>>) -> (pos: usize)
        requires
            self.m > 0,
            h1 == fnv_1a_of(key@),
            h2 == djb2_of(key@),
        ensures
            pos == position(key@, i as int, self.m as nat),
            pos < self.m,
    {
        let combined: u64 = h1.wrapping_add((i as u64).wrapping_mul(h2));
        proof {
            let r: int = 0x1_0000_0000_0000_0000;
            let product = (i as int) * (h2 as int);
            assert((i as nat) * (h2 as nat) == product);
            vstd::arithmetic::div_mod::lemma_add_mod_noop_right(h1 as int, product, r);
            assert(combined as int == (h1 as int + product % r) % r);
        }
        (combined % (self.m as u64)) as usize
    }

    /// Sets the key's bits.
    pub fn insert(&mut self, key: &[u8])
        requires
            old(self).wf(),
        ensures
            final(self).wf(),
            final(self)@ == inserted(old(self)@, key@),
            final(self).k == old(self).k,
            final(self).m == old(self).m,
            bits_set(final(self).bits@) == bits_set(old(self).bits@).union(
                positions(key@, old(self).k as nat, old(self).m as nat),
            ),
    {
        let h1 = Self::fnv_1a(key);
        let h2 = Self::djb2(key);
        let ghost start = self.bits@;
        let ghost m = self.m as nat;
        let mut i: usize = 0;
        assert(bits_set(self.bits@) =~= bits_set(start).union(positions(key@, 0, m)));
        while i < self.k
            invariant
                0 <= i <= self.k,
                self.wf(),
                self.k == old(self).k,
                self.m == old(self).m,
                m == self.m,
                h1 == fnv_1a_of(key@),
                h2 == djb2_of(key@),
                bits_set(self.bits@) == bits_set(start).union(positions(key@, i as nat, m)),
            decreases self.k - i,
        {
            let pos = self.position_of(h1, h2, i, Ghost(key@));
            let byte_index: usize = pos / 8;
            let bit_index: usize = pos % 8;
            let ghost before = self.bits@;
            let byte: u8 = self.bits[byte_index];
            self.bits[byte_index] = byte | (1u8 << (bit_index as u8));
            proof {
                lemma_set_bit(before, pos as int);
                assert(self.bits@ =~= before.update(
                    pos as int / 8,
                    before[pos as int / 8] | (1u8 << ((pos as int % 8) as u8)),
                ));
                assert(positions(key@, (i + 1) as nat, m) =~= positions(key@, i as nat, m).insert(
                    pos as int,
                )) by {
                    assert(position(key@, i as int, m) == pos);
                }
                assert(bits_set(self.bits@) =~= bits_set(start).union(
                    positions(key@, (i + 1) as nat, m),
                ));
            }
            i = i + 1;
        }
        proof {
            lemma_bits_are_packed(self.bits@);
        }
    }

    /// Whether the key may have been inserted; `false` means that it was not.
    pub fn might_contain(&self, key: &[u8]) -> (admitted: bool)
        requires
            self.wf(),
        ensures
            admitted == self@.admits(key@),
    {
        let h1 = Self::fnv_1a(key);
        let h2 = Self::djb2(key);
        let ghost m = self.m as nat;
        let mut i: usize = 0;
        while i < self.k
            invariant
                0 <= i <= self.k,
                self.wf(),
                m == self.m,
                h1 == fnv_1a_of(key@),
                h2 == djb2_of(key@),
                positions(key@, i as nat, m).subset_of(bits_set(self.bits@)),
            decreases self.k - i,
        {
            let pos = self.position_of(h1, h2, i, Ghost(key@));
            let byte: u8 = self.bits[pos / 8];
            let shift: u8 = (pos % 8) as u8;
            assert(((byte >> shift) & 1 == 1) == bit(self.bits@, pos as int));
            if (byte >> shift) & 1 != 1 {
                proof {
                    assert(position(key@, i as int, m) == pos);
                    assert(positions(key@, self.k as nat, m).contains(pos as int));
                    assert(!bits_set(self.bits@).contains(pos as int));
                }
                return false;
            }
            proof {
                assert(bits_set(self.bits@).contains(pos as int));
                assert forall|j: int| positions(key@, (i + 1) as nat, m).contains(j) implies
                    bits_set(self.bits@).contains(j) by {
                    let n = choose|n: int|
                        0 <= n < i + 1 && j == #[trigger] position(key@, n, m);
                    if n < i {
                        assert(positions(key@, i as nat, m).contains(j));
                    }
                }
            }
            i = i + 1;
        }
        true
    }

    /// The number of hash functions, the number of bits, and the bits.
    pub fn to_bytes(&self) -> (bytes: Vec<u8>)
        ensures
            bytes@ == self@.encoded(),
    {
        let mut bytes: Vec<u8> = Vec::new();
        put_le(&mut bytes, self.k as u64, 8);
        put_le(&mut bytes, self.m as u64, 8);
        put_bytes(&mut bytes, self.bits.as_slice());
        assert(bytes@ =~= self@.encoded());
        bytes
    }

    /// The filter that `bytes` hold; `None` if they hold none.
    pub fn from_bytes(bytes: &[u8]) -> (filter: Option<BloomFilter>)
        ensures
            match filter {
                Some(f) => f.wf() && decoded_filter(bytes@) == Some(f@),
                None => decoded_filter(bytes@) is None,
            },
    {
        if bytes.len() < 16 {
            return None;
        }
        let k: u64 = get_le(bytes, 0, 8);
        let m: u64 = get_le(bytes, 8, 8);
        if k > usize::MAX as u64 || m > usize::MAX as u64 {
            return None;
        }
        if k > 0 && m == 0 {
            return None;
        }
        let byte_len: u64 = m / 8 + (if m % 8 == 0 { 0u64 } else { 1u64 });
        if (bytes.len() - 16) as u64 != byte_len {
            return None;
        }
        let bits = copy_range(bytes, 16, bytes.len());
        assert(bits@ =~= bytes@.skip(16));
        Some(BloomFilter { bits, k: k as usize, m: m as usize })
    }
}

/// Setting one bit of a byte changes that bit alone.
proof fn lemma_set_bit(bits: Seq<u8>, j: int)
    requires
        0 <= j < 8 * bits.len(),
    ensures
        bits_set(bits.update(j / 8, bits[j / 8] | (1u8 << ((j % 8) as u8)))) == bits_set(
            bits,
        ).insert(j),
{
    let after = bits.update(j / 8, bits[j / 8] | (1u8 << ((j % 8) as u8)));
    assert forall|n: int| 0 <= n < 8 * bits.len() implies bit(after, n) == (n == j || bit(bits, n)) by {
        if n / 8 == j / 8 {
            let x = bits[j / 8];
            let s = (n % 8) as u8;
            let t = (j % 8) as u8;
            assert(s < 8 && t < 8 ==> (((x | (1u8 << t)) >> s) & 1 == 1) == (s == t || (x >> s) & 1
                == 1)) by (bit_vector);
        }
    }
    assert(bits_set(after) =~= bits_set(bits).insert(j));
}

/// The bits of a packed byte are the members it was packed from.
proof fn lemma_packed_byte(set: Set<int>, base: int, t: int)
    requires
        0 <= t < 8,
    ensures
        ((packed_byte(set, base) >> (t as u8)) & 1 == 1) == set.contains(base + t),
{
    let b0 = set.contains(base);
    let b1 = set.contains(base + 1);
    let b2 = set.contains(base + 2);
    let b3 = set.contains(base + 3);
    let b4 = set.contains(base + 4);
    let b5 = set.contains(base + 5);
    let b6 = set.contains(base + 6);
    let b7 = set.contains(base + 7);
    let x = packed_byte(set, base);
    let sum = (if b0 { 1int } else { 0 }) + (if b1 { 2int } else { 0 }) + (if b2 { 4int } else { 0 })
        + (if b3 { 8int } else { 0 }) + (if b4 { 16int } else { 0 }) + (if b5 { 32int } else { 0 })
        + (if b6 { 64int } else { 0 }) + (if b7 { 128int } else { 0 });
    assert(x == sum);
    let s = t as u8;
    assert({
        &&& s == 0 ==> ((x >> s) & 1 == 1) == b0
        &&& s == 1 ==> ((x >> s) & 1 == 1) == b1
        &&& s == 2 ==> ((x >> s) & 1 == 1) == b2
        &&& s == 3 ==> ((x >> s) & 1 == 1) == b3
        &&& s == 4 ==> ((x >> s) & 1 == 1) == b4
        &&& s == 5 ==> ((x >> s) & 1 == 1) == b5
        &&& s == 6 ==> ((x >> s) & 1 == 1) == b6
        &&& s == 7 ==> ((x >> s) & 1 == 1) == b7
    }) by (bit_vector)
        requires
            x == (if b0 { 1u8 } else { 0u8 }) + (if b1 { 2u8 } else { 0u8 }) + (if b2 { 4u8 } else { 0u8 })
                + (if b3 { 8u8 } else { 0u8 }) + (if b4 { 16u8 } else { 0u8 }) + (if b5 { 32u8 } else { 0u8 })
                + (if b6 { 64u8 } else { 0u8 }) + (if b7 { 128u8 } else { 0u8 }),
    ;
}

/// The set bits of a packed array are the members that fit in it.
pub proof fn lemma_bits_of_packed(set: Set<int>, len: nat)
    ensures
        forall|j: int| #[trigger]
            bits_set(packed(set, len)).contains(j) <==> 0 <= j < 8 * len && set.contains(j),
{
    assert forall|j: int| #[trigger] bits_set(packed(set, len)).contains(j) <==> 0 <= j < 8 * len
        && set.contains(j) by {
        if 0 <= j < 8 * len {
            lemma_packed_byte(set, 8 * (j / 8), j % 8);
            assert(8 * (j / 8) + j % 8 == j);
        }
    }
}

/// A bit array is determined by which of its bits are set.
pub proof fn lemma_bits_are_packed(bits: Seq<u8>)
    ensures
        bits == packed(bits_set(bits), bits.len()),
{
    let set = bits_set(bits);
    assert forall|b: int| 0 <= b < bits.len() implies bits[b] == packed(set, bits.len())[b] by {
        let x = bits[b];
        assert forall|t: int| 0 <= t < 8 implies #[trigger] set.contains(8 * b + t) == ((x >> (
        t as u8)) & 1 == 1) by {
            assert((8 * b + t) / 8 == b);
            assert((8 * b + t) % 8 == t);
        }
        assert(set.contains(8 * b + 0) == ((x >> 0u8) & 1 == 1));
        assert(set.contains(8 * b + 1) == ((x >> 1u8) & 1 == 1));
        assert(set.contains(8 * b + 2) == ((x >> 2u8) & 1 == 1));
        assert(set.contains(8 * b + 3) == ((x >> 3u8) & 1 == 1));
        assert(set.contains(8 * b + 4) == ((x >> 4u8) & 1 == 1));
        assert(set.contains(8 * b + 5) == ((x >> 5u8) & 1 == 1));
        assert(set.contains(8 * b + 6) == ((x >> 6u8) & 1 == 1));
        assert(set.contains(8 * b + 7) == ((x >> 7u8) & 1 == 1));
        assert(x == (if (x >> 0u8) & 1 == 1 { 1u8 } else { 0u8 }) + (if (x >> 1u8) & 1 == 1 { 2u8 } else { 0u8 })
            + (if (x >> 2u8) & 1 == 1 { 4u8 } else { 0u8 }) + (if (x >> 3u8) & 1 == 1 { 8u8 } else { 0u8 })
            + (if (x >> 4u8) & 1 == 1 { 16u8 } else { 0u8 }) + (if (x >> 5u8) & 1 == 1 { 32u8 } else { 0u8 })
            + (if (x >> 6u8) & 1 == 1 { 64u8 } else { 0u8 }) + (if (x >> 7u8) & 1 == 1 { 128u8 } else { 0u8 }))
            by (bit_vector);
    }
    assert(bits =~= packed(set, bits.len()));
}

/// A key's positions lie inside the bit array.
proof fn lemma_positions_in_range(key: Seq<u8>, k: nat, m: nat)
    requires
        k > 0 ==> m > 0,
    ensures
        forall|j: int| positions(key, k, m).contains(j) ==> 0 <= j < m,
{
    assert forall|j: int| positions(key, k, m).contains(j) implies 0 <= j < m by {
        let i = choose|i: int| 0 <= i < k && j == #[trigger] position(key, i, m);
        let hash = (fnv_1a_of(key) + i * djb2_of(key)) % 0x1_0000_0000_0000_0000;
        vstd::arithmetic::div_mod::lemma_mod_bound(hash, m as int);
    }
}

proof fn lemma_all_positions_in_range(keys: Seq<Seq<u8>>, k: nat, m: nat)
    requires
        k > 0 ==> m > 0,
    ensures
        forall|j: int| all_positions(keys, k, m).contains(j) ==> 0 <= j < m,
    decreases keys.len(),
{
    if keys.len() > 0 {
        lemma_all_positions_in_range(keys.drop_last(), k, m);
        lemma_positions_in_range(keys.last(), k, m);
        assert forall|j: int| all_positions(keys, k, m).contains(j) implies 0 <= j < m by {
            if !all_positions(keys.drop_last(), k, m).contains(j) {
                assert(positions(keys.last(), k, m).contains(j));
            }
        }
    }
}

/// Inserting sets the key's bits and no others.
pub proof fn lemma_inserted_bits(filter: Filter, key: Seq<u8>)
    requires
        filter.wf(),
    ensures
        inserted(filter, key).wf(),
        bits_set(inserted(filter, key).bits) == bits_set(filter.bits).union(
            positions(key, filter.k, filter.m),
        ),
{
    let set = bits_set(filter.bits).union(positions(key, filter.k, filter.m));
    lemma_bits_of_packed(set, filter.bits.len());
    lemma_positions_in_range(key, filter.k, filter.m);
    assert(bits_set(inserted(filter, key).bits) =~= set);
}

/// A filter never denies a key that was inserted into it, and goes on admitting
/// what it admitted before.
pub proof fn law_no_false_negatives(filter: Filter, key: Seq<u8>, other: Seq<u8>)
    requires
        filter.wf(),
    ensures
        inserted(filter, key).admits(key),
        filter.admits(other) ==> inserted(filter, key).admits(other),
{
    lemma_inserted_bits(filter, key);
}

/// Inserting a key a second time changes nothing.
pub proof fn law_insert_is_idempotent(filter: Filter, key: Seq<u8>)
    requires
        filter.wf(),
    ensures
        inserted(inserted(filter, key), key) == inserted(filter, key),
{
    lemma_inserted_bits(filter, key);
    let once = inserted(filter, key);
    let set = bits_set(once.bits).union(positions(key, filter.k, filter.m));
    assert(set =~= bits_set(once.bits));
    lemma_bits_are_packed(once.bits);
}

/// The order of insertions does not matter.
pub proof fn law_inserts_commute(filter: Filter, a: Seq<u8>, b: Seq<u8>)
    requires
        filter.wf(),
    ensures
        inserted(inserted(filter, a), b) == inserted(inserted(filter, b), a),
{
    lemma_inserted_bits(filter, a);
    lemma_inserted_bits(filter, b);
    let pa = positions(a, filter.k, filter.m);
    let pb = positions(b, filter.k, filter.m);
    assert(bits_set(inserted(filter, a).bits).union(pb) =~= bits_set(
        inserted(filter, b).bits,
    ).union(pa));
}

/// Building a filter key by key gives the filter of all the keys.
pub proof fn lemma_filter_of_push(keys: Seq<Seq<u8>>, key: Seq<u8>, m: nat, k: nat)
    requires
        k > 0 ==> m > 0,
    ensures
        filter_of(keys, m, k).wf(),
        filter_of(keys.push(key), m, k) == inserted(filter_of(keys, m, k), key),
{
    let set = all_positions(keys, k, m);
    assert(keys.push(key).drop_last() =~= keys);
    lemma_all_positions_in_range(keys, k, m);
    lemma_bits_of_packed(set, bytes_for(m));
    assert(bits_set(filter_of(keys, m, k).bits) =~= set);
}

/// The filter of a list of keys admits every one of them.
pub proof fn law_filter_admits_its_keys(keys: Seq<Seq<u8>>, m: nat, k: nat, i: int)
    requires
        k > 0 ==> m > 0,
        0 <= i < keys.len(),
    ensures
        filter_of(keys, m, k).admits(keys[i]),
    decreases keys.len(),
{
    let front = keys.drop_last();
    assert(front.push(keys.last()) =~= keys);
    lemma_filter_of_push(front, keys.last(), m, k);
    law_no_false_negatives(filter_of(front, m, k), keys.last(), keys[i]);
    if i < front.len() {
        law_filter_admits_its_keys(front, m, k, i);
    }
}

/// A filter is read back as it was written.
pub proof fn law_filter_survives_encoding(filter: Filter)
    requires
        filter.wf(),
        filter.k <= usize::MAX,
        filter.m <= usize::MAX,
    ensures
        decoded_filter(filter.encoded()) == Some(filter),
{
    lemma_capacity();
    lemma_le_bytes_len(filter.k, 8);
    lemma_le_bytes_len(filter.m, 8);
    lemma_le_value_of_bytes(filter.k, 8);
    lemma_le_value_of_bytes(filter.m, 8);
    let bytes = filter.encoded();
    assert(bytes.subrange(0, 8) =~= le_bytes(filter.k, 8));
    assert(bytes.subrange(8, 16) =~= le_bytes(filter.m, 8));
    assert(bytes.skip(16) =~= filter.bits);
}

/// Every byte of a key, however long, enters both hashes.
pub proof fn law_every_byte_enters_the_hashes(key: Seq<u8>, byte: u8)
    ensures
        fnv_1a_of(Seq::empty()) == 0xcbf29ce484222325,
        fnv_1a_of(key.push(byte)) == ((fnv_1a_of(key) ^ (byte as u64)) * 1099511628211)
            % 0x1_0000_0000_0000_0000,
        djb2_of(Seq::empty()) == 5381,
        djb2_of(key.push(byte)) == (33 * djb2_of(key) + byte) % 0x1_0000_0000_0000_0000,
{
    assert(key.push(byte).drop_last() =~= key);
}

/// Keys that differ in their last byte only have different hashes, and so have keys
/// that differ in their hashes before the last byte.
pub proof fn law_hashes_keep_keys_apart(a: Seq<u8>, b: Seq<u8>, x: u8, y: u8)
    ensures
        x != y ==> fnv_1a_of(a.push(x)) != fnv_1a_of(a.push(y)),
        fnv_1a_of(a) != fnv_1a_of(b) ==> fnv_1a_of(a.push(x)) != fnv_1a_of(b.push(x)),
        x != y ==> djb2_of(a.push(x)) != djb2_of(a.push(y)),
{
    law_every_byte_enters_the_hashes(a, x);
    law_every_byte_enters_the_hashes(a, y);
    law_every_byte_enters_the_hashes(b, x);
    let ha = fnv_1a_of(a);
    let hb = fnv_1a_of(b);
    let (bx, by) = (x as u64, y as u64);
    assert(bx != by ==> ha ^ bx != ha ^ by) by (bit_vector);
    assert(ha != hb ==> ha ^ bx != hb ^ bx) by (bit_vector);
    lemma_prime_keeps_apart(ha ^ bx, ha ^ by);
    lemma_prime_keeps_apart(ha ^ bx, hb ^ bx);
}

/// Multiplication by the FNV prime can be undone modulo 2^64.
proof fn lemma_prime_keeps_apart(u: u64, v: u64)
    ensures
        u != v ==> (u * 1099511628211) % 0x1_0000_0000_0000_0000 != (v * 1099511628211)
            % 0x1_0000_0000_0000_0000,
{
    let r: int = 0x1_0000_0000_0000_0000;
    let prime: int = 1099511628211;
    let inverse: int = 14886173955864302971;
    assert((prime * inverse) % r == 1);
    lemma_undone(u as int, prime, inverse, r);
    lemma_undone(v as int, prime, inverse, r);
}

proof fn lemma_undone(u: int, prime: int, inverse: int, r: int)
    requires
        r > 1,
        0 <= u < r,
        (prime * inverse) % r == 1,
    ensures
        (((u * prime) % r) * inverse) % r == u,
{
    vstd::arithmetic::div_mod::lemma_mul_mod_noop_left(u * prime, inverse, r);
    assert((u * prime) * inverse == u * (prime * inverse)) by (nonlinear_arith);
    vstd::arithmetic::div_mod::lemma_mul_mod_noop_right(u, prime * inverse, r);
    vstd::arithmetic::div_mod::lemma_small_mod(u as nat, r as nat);
}

/// Bit `j` of a bit array stands in byte `j / 8`, counted from the lowest bit.
pub proof fn law_bits_stand_in_their_bytes(bits: Seq<u8>, j: int)
    ensures
        bits_set(bits).contains(j) <==> 0 <= j < 8 * bits.len() && (bits[j / 8] >> ((j % 8) as u8))
            & 1 == 1,
{
}

/// An insertion sets, for every `i` below `k`, the bit at `fnv_1a + i * djb2`, modulo
/// 2^64 and then modulo the number of bits, and changes no other bit.
pub proof fn law_insertion_sets_the_bits_of_the_key(filter: Filter, key: Seq<u8>, j: int)
    requires
        filter.wf(),
        0 <= j < 8 * filter.bits.len(),
    ensures
        inserted(filter, key).k == filter.k,
        inserted(filter, key).m == filter.m,
        inserted(filter, key).bits.len() == filter.bits.len(),
        (inserted(filter, key).bits[j / 8] >> ((j % 8) as u8)) & 1 == 1 <==> (filter.bits[j / 8] >> (
        (j % 8) as u8)) & 1 == 1 || exists|i: int|
            0 <= i < filter.k && j == ((fnv_1a_of(key) + #[trigger] (i * djb2_of(key)))
                % 0x1_0000_0000_0000_0000) % (filter.m as int),
{
    lemma_inserted_bits(filter, key);
    let before = bits_set(filter.bits);
    let after = bits_set(inserted(filter, key).bits);
    assert(after.contains(j) <==> before.contains(j) || positions(
        key,
        filter.k,
        filter.m,
    ).contains(j));
    if positions(key, filter.k, filter.m).contains(j) {
        let i = choose|i: int| 0 <= i < filter.k && j == #[trigger] position(key, i, filter.m);
        assert(j == ((fnv_1a_of(key) + (i * djb2_of(key))) % 0x1_0000_0000_0000_0000) % (
        filter.m as int));
    }
    if exists|i: int|
        0 <= i < filter.k && j == ((fnv_1a_of(key) + #[trigger] (i * djb2_of(key)))
            % 0x1_0000_0000_0000_0000) % (filter.m as int) {
        let i = choose|i: int|
            0 <= i < filter.k && j == ((fnv_1a_of(key) + #[trigger] (i * djb2_of(key)))
                % 0x1_0000_0000_0000_0000) % (filter.m as int);
        assert(j == position(key, i, filter.m));
    }
}

/// A key is admitted exactly if all the bits that its insertion would set are set:
/// inserting an admitted key changes nothing, and inserting another one changes the
/// filter.
pub proof fn law_admitted_keys_change_nothing(filter: Filter, key: Seq<u8>)
    requires
        filter.wf(),
    ensures
        filter.admits(key) <==> inserted(filter, key) == filter,
{
    lemma_inserted_bits(filter, key);
    let set = positions(key, filter.k, filter.m);
    let before = bits_set(filter.bits);
    lemma_bits_are_packed(filter.bits);
    if filter.admits(key) {
        assert(before.union(set) =~= before);
    }
    if inserted(filter, key) == filter {
        assert forall|j: int| set.contains(j) implies before.contains(j) by {
            assert(before.union(set).contains(j));
        }
    }
}

/// The filter of no keys has no bit set, in as many bytes as its bits need; the filter
/// of one key more is that of the others with the key inserted.
pub proof fn law_filter_is_built_key_by_key(keys: Seq<Seq<u8>>, key: Seq<u8>, m: nat, k: nat)
    requires
        k > 0 ==> m > 0,
    ensures
        filter_of(Seq::empty(), m, k).k == k,
        filter_of(Seq::empty(), m, k).m == m,
        8 * filter_of(Seq::empty(), m, k).bits.len() >= m,
        8 * filter_of(Seq::empty(), m, k).bits.len() < m + 8,
        forall|i: int|
            0 <= i < filter_of(Seq::empty(), m, k).bits.len() ==> #[trigger] filter_of(
                Seq::empty(),
                m,
                k,
            ).bits[i] == 0,
        filter_of(keys.push(key), m, k) == inserted(filter_of(keys, m, k), key),
{
    lemma_filter_of_push(keys, key, m, k);
}

/// A filter is seen as it is held, and written as its number of hash functions, its
/// number of bits, eight bytes each, and its bit array. Bytes that hold a filter in
/// this form, with an array of the right length, are read as that filter, and no other
/// bytes are.
pub proof fn law_filter_layout(held: BloomFilter, filter: Filter, bytes: Seq<u8>)
    ensures
        held@.bits == held.bits@ && held@.k == held.k && held@.m == held.m,
        filter.encoded().len() == 16 + filter.bits.len(),
        filter.k < 0x1_0000_0000_0000_0000 ==> le_value(filter.encoded().subrange(0, 8))
            == filter.k,
        filter.m < 0x1_0000_0000_0000_0000 ==> le_value(filter.encoded().subrange(8, 16))
            == filter.m,
        filter.encoded().skip(16) == filter.bits,
        decoded_filter(bytes) == Some(filter) <==> {
            &&& bytes.len() >= 16
            &&& le_value(bytes.subrange(0, 8)) == filter.k <= usize::MAX
            &&& le_value(bytes.subrange(8, 16)) == filter.m <= usize::MAX
            &&& bytes.skip(16) == filter.bits
            &&& filter.m <= 8 * filter.bits.len() < filter.m + 8
            &&& filter.k > 0 ==> filter.m > 0
        },
{
    lemma_capacity();
    lemma_le_bytes_len(filter.k, 8);
    lemma_le_bytes_len(filter.m, 8);
    lemma_le_value_of_bytes(filter.k, 8);
    lemma_le_value_of_bytes(filter.m, 8);
    let code = filter.encoded();
    assert(code.subrange(0, 8) =~= le_bytes(filter.k, 8));
    assert(code.subrange(8, 16) =~= le_bytes(filter.m, 8));
    assert(code.skip(16) =~= filter.bits);
}

} // verus!
