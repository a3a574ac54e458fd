//! Bit-level model of bitboards: single-bit reads and a positional
//! population count, with the lemmas the board rules are proved from.

use vstd::prelude::*;

verus! {

/// True when bit `i` of `m` is set.
pub open spec fn bit_at(m: u64, i: u64) -> bool {
    (m >> i) & 1 == 1
}

/// Number of set bits of `m` among positions `[0, n)`.
pub open spec fn count_bits(m: u64, n: int) -> int
    decreases n,
{
    if n <= 0 {
        0
    } else {
        count_bits(m, n - 1) + if bit_at(m, (n - 1) as u64) {
            1int
        } else {
            0int
        }
    }
}

/// How `bit_at` distributes over the bitwise operators.
pub proof fn lemma_bit_facts()
    by (bit_vector)
    ensures
        forall|a: u64, b: u64, i: u64|
            i < 64 ==> #[trigger] bit_at(a | b, i) == (bit_at(a, i) || bit_at(b, i)),
        forall|a: u64, b: u64, i: u64|
            i < 64 ==> #[trigger] bit_at(a & b, i) == (bit_at(a, i) && bit_at(b, i)),
        forall|a: u64, i: u64| i < 64 ==> #[trigger] bit_at(!a, i) == !bit_at(a, i),
        forall|k: u64, i: u64|
            k < 64 && i < 64 ==> #[trigger] bit_at(1u64 << k, i) == (i == k),
        forall|m: u64, k: u64| k < 64 ==> ((m & (1u64 << k)) != 0) == #[trigger] bit_at(m, k),
        forall|i: u64| i < 64 ==> !#[trigger] bit_at(0u64, i),
{
}

/// Bitwise or is commutative and associative with identity zero.
pub proof fn lemma_or_algebra()
    by (bit_vector)
    ensures
        forall|a: u64, b: u64, c: u64| #[trigger] ((a | b) | c) == (a | (b | c)),
        forall|a: u64, b: u64| #[trigger] (a | b) == (b | a),
        forall|a: u64| #[trigger] (a | 0) == a,
{
}

/// The count over `[0, n)` lies between 0 and `n`.
pub proof fn lemma_count_bounds(m: u64, n: int)
    requires
        0 <= n,
    ensures
        0 <= count_bits(m, n) <= n,
    decreases n,
{
    if n > 0 {
        lemma_count_bounds(m, n - 1);
    }
}

/// A saturated count means every position below `n` is set.
pub proof fn lemma_count_full(m: u64, n: int)
    requires
        0 <= n <= 64,
        count_bits(m, n) == n,
    ensures
        forall|i: u64| i < n ==> bit_at(m, i),
    decreases n,
{
    if n > 0 {
        lemma_count_bounds(m, n - 1);
        lemma_count_full(m, n - 1);
    }
}

/// A set bit below `n` forces a positive count.
pub proof fn lemma_count_positive(m: u64, k: u64, n: int)
    requires
        k < n <= 64,
        bit_at(m, k),
    ensures
        count_bits(m, n) >= 1,
    decreases n,
{
    lemma_count_bounds(m, n - 1);
    if k < n - 1 {
        lemma_count_positive(m, k, n - 1);
    }
}

/// Counting distributes over the union of bitwise-disjoint masks.
pub proof fn lemma_count_disjoint(a: u64, b: u64, n: int)
    requires
        n <= 64,
        forall|i: u64| i < 64 ==> !(bit_at(a, i) && bit_at(b, i)),
    ensures
        count_bits(a | b, n) == count_bits(a, n) + count_bits(b, n),
    decreases n,
{
    lemma_bit_facts();
    if n > 0 {
        lemma_count_disjoint(a, b, n - 1);
    }
}

/// Removing a submask `s` of `a` removes exactly `count_bits(s, n)` bits.
pub proof fn lemma_count_remove(a: u64, s: u64, n: int)
    requires
        n <= 64,
        forall|i: u64| i < 64 ==> (bit_at(s, i) ==> bit_at(a, i)),
    ensures
        count_bits(a & !s, n) == count_bits(a, n) - count_bits(s, n),
    decreases n,
{
    lemma_bit_facts();
    if n > 0 {
        lemma_count_remove(a, s, n - 1);
    }
}

/// A single-bit mask counts exactly one bit once `n` passes its position.
pub proof fn lemma_count_single(k: u64, n: int)
    requires
        k < 64,
        n <= 64,
    ensures
        count_bits(1u64 << k, n) == if k < n {
            1int
        } else {
            0int
        },
    decreases n,
{
    lemma_bit_facts();
    if n > 0 {
        lemma_count_single(k, n - 1);
    }
}

/// Exact population count of a mask, by testing each of the 64 positions.
pub fn popcount(m: u64) -> (c: u32)
    ensures
        c == count_bits(m, 64),
        c <= 64,
{
    let mut c: u32 = 0;
    let mut i: u64 = 0;
    while i < 64
        invariant
            i <= 64,
            c == count_bits(m, i as int),
            0 <= count_bits(m, i as int) <= i,
        decreases 64 - i,
    {
        proof {
            lemma_count_bounds(m, i as int + 1);
        }
        if (m >> i) & 1 == 1 {
            c = c + 1;
        }
        i = i + 1;
    }
    c
}

} // verus!
