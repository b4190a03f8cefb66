//! The hash by which a designator is found with one probe of a table of 128
//! buckets, and the test of a seed: whether it gives every designator a
//! bucket of its own.

use vstd::prelude::*;
use crate::designator::designator_needles;
use crate::designator::designators;
use crate::needles::TrieNeedles;
use crate::Unit;

verus! {

/// The number of bits of a hash.
pub const HASH_BITS: u32 = 7;

/// The number of buckets: one for each hash.
pub const BUCKETS: usize = 128;

/// 256 to the power of `n`.
pub open spec fn pow256(n: nat) -> nat
    decreases n,
{
    if n == 0 {
        1
    } else {
        256 * pow256((n - 1) as nat)
    }
}

/// The number that the first `n` bytes of `bytes` spell, the first byte
/// being the lowest digit to the base 256. Missing bytes count as zero.
pub open spec fn packed(bytes: Seq<u8>, n: nat) -> nat
    decreases n,
{
    if n == 0 || bytes.len() == 0 {
        0
    } else {
        bytes[0] as nat + 256 * packed(bytes.skip(1), (n - 1) as nat)
    }
}

/// The hash of a label under a seed: the sum of the number that its first
/// eight bytes spell and of its length, times the seed, both in 64 bits; of
/// that the highest seven bits.
pub open spec fn hash_of(label: Seq<u8>, seed: u64) -> usize {
    ((packed(label, 8) as u64).wrapping_add(label.len() as u64).wrapping_mul(seed) >> 57) as usize
}

/// Whether the seed gives every label a hash of its own.
pub open spec fn is_perfect_seed<V>(labels: Seq<(Seq<u8>, V)>, seed: u64) -> bool {
    forall|i: int, j: int|
        0 <= i < j < labels.len() ==> hash_of((#[trigger] labels[i]).0, seed) != hash_of(
            (#[trigger] labels[j]).0,
            seed,
        )
}

/// The powers of 256 up to the eighth, which is the first that 64 bits do
/// not hold.
proof fn lemma_pow256(n: nat)
    requires
        n <= 8,
    ensures
        pow256(n) <= 0x1_0000_0000_0000_0000,
        n <= 7 ==> pow256(n) <= 0x100_0000_0000_0000,
{
    reveal_with_fuel(pow256, 10);
}

/// The number that `n` bytes spell lies below the `n`th power of 256.
proof fn lemma_packed_bound(bytes: Seq<u8>, n: nat)
    ensures
        packed(bytes, n) < pow256(n),
    decreases n,
{
    if n > 0 && bytes.len() > 0 {
        lemma_packed_bound(bytes.skip(1), (n - 1) as nat);
    } else if n > 0 {
        lemma_pow256_positive((n - 1) as nat);
    }
}

/// A power of 256 is at least 1.
proof fn lemma_pow256_positive(n: nat)
    ensures
        pow256(n) >= 1,
    decreases n,
{
    if n > 0 {
        lemma_pow256_positive((n - 1) as nat);
    }
}

/// Bytes that are not there do not count.
proof fn lemma_packed_short(bytes: Seq<u8>, n: nat, m: nat)
    requires
        bytes.len() <= n,
        bytes.len() <= m,
    ensures
        packed(bytes, n) == packed(bytes, m),
    decreases bytes.len(),
{
    if bytes.len() > 0 {
        lemma_packed_short(bytes.skip(1), (n - 1) as nat, (m - 1) as nat);
    }
}

/// Bytes after the first `n` do not count.
proof fn lemma_packed_take(bytes: Seq<u8>, n: nat)
    requires
        n <= bytes.len(),
    ensures
        packed(bytes.take(n as int), n) == packed(bytes, n),
    decreases n,
{
    if n > 0 {
        assert(bytes.take(n as int).skip(1) =~= bytes.skip(1).take(n - 1));
        lemma_packed_take(bytes.skip(1), (n - 1) as nat);
    }
}

/// The number that the first eight bytes of `bytes` spell, the first byte
/// being the lowest.
pub fn bytes_to_u64(bytes: &[u8]) -> (r: u64)
    ensures
        r == packed(bytes@, 8),
{
    let len: usize = if bytes.len() < 8 {
        bytes.len()
    } else {
        8
    };
    let mut r: u64 = 0;
    let mut k: usize = len;
    assert(bytes@.skip(len as int).take(0) =~= Seq::empty());
    while k > 0
        invariant
            k <= len <= 8,
            len <= bytes@.len(),
            r == packed(bytes@.skip(k as int).take(len - k), (len - k) as nat),
            r < pow256((len - k) as nat),
        decreases k,
    {
        proof {
            lemma_pow256((len - k) as nat);
            let before = bytes@.skip(k as int).take(len - k);
            let after = bytes@.skip(k as int - 1).take(len - k + 1);
            assert(after.skip(1) =~= before);
            assert(after[0] == bytes@[k as int - 1]);
        }
        k -= 1;
        r = r * 256 + bytes[k] as u64;
    }
    proof {
        let first = bytes@.take(len as int);
        assert(bytes@.skip(0).take(len as int) =~= first);
        if bytes@.len() < 8 {
            assert(first =~= bytes@);
            lemma_packed_short(bytes@, len as nat, 8);
        } else {
            lemma_packed_take(bytes@, 8);
        }
    }
    r
}

/// The hash of a label under a seed, which is the number of its bucket.
pub fn bad_hash(label: &[u8], seed: u64) -> (r: usize)
    ensures
        r == hash_of(label@, seed),
        r < BUCKETS,
{
    let x = bytes_to_u64(label).wrapping_add(label.len() as u64);
    let product = x.wrapping_mul(seed);
    assert((product >> 57) < 128) by (bit_vector);
    (product >> (64 - HASH_BITS)) as usize
}

/// Whether the seed gives every needle a bucket of its own.
pub fn is_perfect<V: Copy>(needles: &TrieNeedles<V>, seed: u64) -> (r: bool)
    ensures
        r == is_perfect_seed(needles@, seed),
{
    let ghost labels = needles@;
    let mut buckets = [false; 128];
    let mut i: usize = 0;
    while i < needles.len()
        invariant
            labels == needles@,
            i <= labels.len(),
            forall|a: int, b: int|
                0 <= a < b < i ==> hash_of((#[trigger] labels[a]).0, seed) != hash_of(
                    (#[trigger] labels[b]).0,
                    seed,
                ),
            forall|h: int|
                0 <= h < 128 ==> (#[trigger] buckets@[h] <==> exists|a: int|
                    0 <= a < i && hash_of((#[trigger] labels[a]).0, seed) == h),
        decreases labels.len() - i,
    {
        let h = bad_hash(needles.label(i), seed);
        if buckets[h] {
            proof {
                let a = choose|a: int| 0 <= a < i && hash_of((#[trigger] labels[a]).0, seed) == h;
                assert(hash_of(labels[a].0, seed) == hash_of(labels[i as int].0, seed));
            }
            return false;
        }
        let ghost before = buckets@;
        buckets[h] = true;
        proof {
            assert forall|x: int| 0 <= x < 128 implies (#[trigger] buckets@[x] <==> exists|a: int|
                0 <= a < i + 1 && hash_of((#[trigger] labels[a]).0, seed) == x) by {
                if x == h {
                    assert(hash_of(labels[i as int].0, seed) == x);
                } else if before[x] {
                    let a = choose|a: int|
                        0 <= a < i && hash_of((#[trigger] labels[a]).0, seed) == x;
                    assert(hash_of(labels[a].0, seed) == x);
                } else if exists|a: int|
                    0 <= a < i + 1 && hash_of((#[trigger] labels[a]).0, seed) == x {
                    let a = choose|a: int|
                        0 <= a < i + 1 && hash_of((#[trigger] labels[a]).0, seed) == x;
                    assert(a < i);
                    assert(hash_of(labels[a].0, seed) == x);
                }
            }
        }
        i += 1;
    }
    true
}

/// Whether the seed gives every designator a bucket of its own.
pub fn try_seed(seed: u64) -> (r: bool)
    ensures
        r == is_perfect_seed(designators(), seed),
{
    is_perfect(&designator_needles(), seed)
}

/// The last of the first `n` labels whose hash is `bucket`, if there is one.
pub open spec fn owner<V>(labels: Seq<(Seq<u8>, V)>, seed: u64, n: int, bucket: int) -> Option<int>
    decreases n,
{
    if n <= 0 {
        None
    } else if hash_of(labels[n - 1].0, seed) == bucket {
        Some(n - 1)
    } else {
        owner(labels, seed, n - 1, bucket)
    }
}

/// The numbers that the first eight bytes of a label and its next eight
/// bytes spell.
pub open spec fn packed_pair(label: Seq<u8>) -> (u64, u64) {
    let from = if label.len() < 8 {
        label.len() as int
    } else {
        8
    };
    (packed(label, 8) as u64, packed(label.skip(from), 8) as u64)
}

/// What a bucket of the table holds: the bytes and the unit of the label
/// that owns it, or zeros and `Unit::Nanosecond` where no label does.
pub open spec fn bucket_of(labels: Seq<(Seq<u8>, Unit)>, seed: u64, bucket: int) -> (
    (u64, u64),
    Unit,
) {
    match owner(labels, seed, labels.len() as int, bucket) {
        Some(j) => (packed_pair(labels[j].0), labels[j].1),
        None => ((0, 0), Unit::Nanosecond),
    }
}

/// The table of the seed: for each bucket the bytes of the designator that
/// hashes to it, as two numbers, and its unit. Where several designators
/// hash to a bucket, it holds the last of them.
pub fn hash_table(seed: u64) -> (table: Vec<((u64, u64), Unit)>)
    ensures
        table@.len() == BUCKETS,
        forall|bucket: int|
            0 <= bucket < BUCKETS ==> #[trigger] table@[bucket] == bucket_of(
                designators(),
                seed,
                bucket,
            ),
{
    let needles = designator_needles();
    let ghost labels = designators();
    let mut table: Vec<((u64, u64), Unit)> = Vec::new();
    while table.len() < BUCKETS
        invariant
            table@.len() <= BUCKETS,
            forall|bucket: int|
                0 <= bucket < table@.len() ==> #[trigger] table@[bucket] == (
                    (0u64, 0u64),
                    Unit::Nanosecond,
                ),
        decreases BUCKETS - table@.len(),
    {
        table.push(((0, 0), Unit::Nanosecond));
    }
    let mut i: usize = 0;
    while i < needles.len()
        invariant
            labels == needles@,
            labels == designators(),
            i <= labels.len(),
            table@.len() == BUCKETS,
            forall|bucket: int|
                0 <= bucket < BUCKETS ==> #[trigger] table@[bucket] == (match owner(
                    labels,
                    seed,
                    i as int,
                    bucket,
                ) {
                    Some(j) => (packed_pair(labels[j].0), labels[j].1),
                    None => ((0u64, 0u64), Unit::Nanosecond),
                }),
        decreases labels.len() - i,
    {
        let bytes = needles.label(i);
        let bucket = bad_hash(bytes, seed);
        let low = bytes_to_u64(bytes);
        let from: usize = if bytes.len() < 8 {
            bytes.len()
        } else {
            8
        };
        let rest = vstd::slice::slice_subrange(bytes, from, bytes.len());
        let high = bytes_to_u64(rest);
        proof {
            assert(rest@ =~= bytes@.skip(from as int));
            lemma_packed_bound(bytes@, 8);
            lemma_packed_bound(bytes@.skip(from as int), 8);
            lemma_pow256(8);
        }
        table[bucket] = ((low, high), needles.value(i));
        i += 1;
    }
    table
}

} // verus!
