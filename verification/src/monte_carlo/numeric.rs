//! Integer fixed-point arithmetic for the UCB1 formula: a base-two
//! logarithm with 16 fractional bits (integer part by repeated halving,
//! fraction by the classic squaring method), the natural logarithm
//! scaled by 2^16, and an exact integer square root. Working in fixed
//! point keeps the selection rule free of floating point and makes the
//! computed scores a mathematical function of the counters.

use vstd::arithmetic::div_mod::{
    lemma_div_by_multiple, lemma_div_is_ordered, lemma_multiply_divide_le,
    lemma_multiply_divide_lt,
};
use vstd::prelude::*;

verus! {

/// 2^k.
pub open spec fn pow2(k: nat) -> int
    decreases k,
{
    if k == 0 {
        1
    } else {
        2 * pow2((k - 1) as nat)
    }
}

/// The integer part of the base-two logarithm (zero below 2).
pub open spec fn floor_log2(x: int) -> nat
    decreases x,
{
    if x < 2 {
        0
    } else {
        (1 + floor_log2(x / 2)) as nat
    }
}

/// One squaring step on a mantissa scaled by 2^16: squares, rescales,
/// and halves when the result passed 2.
pub open spec fn sq_mant(m: int) -> int {
    if (m * m) / 65536 >= 131072 {
        ((m * m) / 65536) / 2
    } else {
        (m * m) / 65536
    }
}

/// The fraction bit that the squaring step emits.
pub open spec fn sq_bit(m: int) -> int {
    if (m * m) / 65536 >= 131072 {
        1
    } else {
        0
    }
}

/// The mantissa after `k` squaring steps.
pub open spec fn frac_mant(m: int, k: nat) -> int
    decreases k,
{
    if k == 0 {
        m
    } else {
        sq_mant(frac_mant(m, (k - 1) as nat))
    }
}

/// The fraction bits accumulated over `k` squaring steps.
pub open spec fn frac_acc(m: int, k: nat) -> int
    decreases k,
{
    if k == 0 {
        0
    } else {
        2 * frac_acc(m, (k - 1) as nat) + sq_bit(frac_mant(m, (k - 1) as nat))
    }
}

/// The mantissa of `x` scaled by 2^16, in `[65536, 131072)` for `x >= 1`.
pub open spec fn mant_fp(x: int) -> int {
    (x * 65536) / pow2(floor_log2(x))
}

/// Base-two logarithm of `x`, scaled by 2^16 with 16 fraction bits.
pub open spec fn log2_fp(x: int) -> int {
    floor_log2(x) * 65536 + frac_acc(mant_fp(x), 16)
}

/// Natural logarithm of `x`, scaled by 2^16 (ln 2 * 2^16 rounds to 45426).
pub open spec fn ln_fp(x: int) -> int {
    (log2_fp(x) * 45426) / 65536
}

/// The integer square root: the largest `r` with `r * r <= n`.
pub open spec fn sqrt_floor(n: int) -> int
    decreases n,
{
    if n <= 0 {
        0
    } else {
        let p = sqrt_floor(n - 1);
        if (p + 1) * (p + 1) <= n {
            p + 1
        } else {
            p
        }
    }
}

/// Powers of two are positive.
pub proof fn lemma_pow2_pos(k: nat)
    ensures
        pow2(k) >= 1,
    decreases k,
{
    if k > 0 {
        lemma_pow2_pos((k - 1) as nat);
    }
}

/// Powers of two are monotone.
pub proof fn lemma_pow2_mono(a: nat, b: nat)
    requires
        a <= b,
    ensures
        pow2(a) <= pow2(b),
    decreases b,
{
    if a < b {
        lemma_pow2_mono(a, (b - 1) as nat);
        lemma_pow2_pos((b - 1) as nat);
    }
}

/// The concrete powers of two the proofs compare against.
pub proof fn lemma_pow2_values()
    ensures
        pow2(16) == 65536,
        pow2(31) == 0x8000_0000,
        pow2(32) == 0x1_0000_0000,
{
    reveal_with_fuel(pow2, 33);
}

/// `floor_log2` brackets its argument between two powers of two.
pub proof fn lemma_floor_log2(x: int)
    requires
        x >= 1,
    ensures
        pow2(floor_log2(x)) <= x < 2 * pow2(floor_log2(x)),
    decreases x,
{
    if x >= 2 {
        lemma_floor_log2(x / 2);
    }
}

/// An upper bound on the argument bounds `floor_log2`.
pub proof fn lemma_floor_log2_le(x: int, b: nat)
    requires
        1 <= x,
        x < pow2(b),
    ensures
        b >= 1,
        floor_log2(x) <= b - 1,
    decreases b,
{
    lemma_pow2_pos(b);
    if x >= 2 {
        lemma_floor_log2_le(x / 2, (b - 1) as nat);
    }
}

/// The squaring step keeps a normalized mantissa normalized.
pub proof fn lemma_sq_mant_bounds(m: int)
    requires
        65536 <= m < 131072,
    ensures
        65536 <= sq_mant(m) < 131072,
        sq_bit(m) == 0 || sq_bit(m) == 1,
{
    assert(m * m >= 65536 * 65536) by (nonlinear_arith)
        requires
            m >= 65536,
    ;
    assert(m * m <= 131071 * 131071) by (nonlinear_arith)
        requires
            0 <= m <= 131071,
    ;
    lemma_div_is_ordered((65536 * 65536) as int, m * m, 65536);
    lemma_div_by_multiple(65536, 65536);
    lemma_multiply_divide_le(m * m, 65536, 262143);
}

/// `sqrt_floor(n)` squared is at most `n`, and the next square is above it.
pub proof fn lemma_sqrt_floor_bounds(n: int)
    requires
        0 <= n,
    ensures
        0 <= sqrt_floor(n),
        sqrt_floor(n) * sqrt_floor(n) <= n,
        n < (sqrt_floor(n) + 1) * (sqrt_floor(n) + 1),
    decreases n,
{
    if n > 0 {
        lemma_sqrt_floor_bounds(n - 1);
        let p = sqrt_floor(n - 1);
        if (p + 1) * (p + 1) <= n {
            assert(n < (p + 2) * (p + 2)) by (nonlinear_arith)
                requires
                    0 <= p,
                    n - 1 < (p + 1) * (p + 1),
                    (p + 1) * (p + 1) <= n,
            ;
        }
    }
}

/// Any integer satisfying the square-root bracketing is `sqrt_floor(n)`.
pub proof fn lemma_sqrt_floor_unique(n: int, r: int)
    requires
        0 <= n,
        0 <= r,
        r * r <= n,
        n < (r + 1) * (r + 1),
    ensures
        r == sqrt_floor(n),
{
    lemma_sqrt_floor_bounds(n);
    let s = sqrt_floor(n);
    if r < s {
        assert((r + 1) * (r + 1) <= s * s) by (nonlinear_arith)
            requires
                0 <= r,
                r + 1 <= s,
        ;
    }
    if s < r {
        assert((s + 1) * (s + 1) <= r * r) by (nonlinear_arith)
            requires
                0 <= s,
                s + 1 <= r,
        ;
    }
}

/// The integer part of the base-two logarithm of `x`.
fn ilog2(x: u64) -> (k: u64)
    requires
        1 <= x,
        x < 0x1_0000_0000,
    ensures
        k == floor_log2(x as int),
        k <= 31,
{
    proof {
        lemma_pow2_values();
        lemma_floor_log2_le(x as int, 32);
    }
    let mut v: u64 = x;
    let mut k: u64 = 0;
    while v >= 2
        invariant
            1 <= v,
            floor_log2(x as int) == k + floor_log2(v as int),
            floor_log2(x as int) <= 31,
        decreases v,
    {
        v = v / 2;
        k = k + 1;
    }
    k
}

/// 2^k as a machine word.
fn pow2_exec(k: u64) -> (p: u64)
    requires
        k <= 31,
    ensures
        p == pow2(k as nat),
        1 <= p <= 0x8000_0000,
{
    proof {
        lemma_pow2_values();
    }
    let mut p: u64 = 1;
    let mut i: u64 = 0;
    while i < k
        invariant
            i <= k <= 31,
            p == pow2(i as nat),
            1 <= p,
            p <= 0x8000_0000,
        decreases k - i,
    {
        proof {
            lemma_pow2_mono(i as nat + 1, 31);
            lemma_pow2_values();
        }
        p = p * 2;
        i = i + 1;
    }
    proof {
        lemma_pow2_mono(k as nat, 31);
        lemma_pow2_values();
    }
    p
}

/// Natural logarithm of `t`, scaled by 2^16; exactly `ln_fp(t)`.
pub fn ln_fp_exec(t: u32) -> (r: u64)
    requires
        t >= 1,
    ensures
        r == ln_fp(t as int),
        r <= 1453631,
{
    let x: u64 = t as u64;
    let k = ilog2(x);
    let p = pow2_exec(k);
    proof {
        lemma_floor_log2(x as int);
        // m0 lies in [65536, 131072)
        lemma_div_is_ordered(p as int * 65536, x as int * 65536, p as int);
        lemma_div_by_multiple(65536, p as int);
        assert(x as int * 65536 < (p as int) * 131072) by {
            assert(x as int <= 2 * p - 1);
        }
        lemma_multiply_divide_lt(x as int * 65536, p as int, 131072);
    }
    let m0: u64 = (x * 65536) / p;
    let ghost gm0 = m0 as int;
    let mut mi: u64 = m0;
    let mut acc: u64 = 0;
    let mut i: u64 = 0;
    while i < 16
        invariant
            i <= 16,
            mi == frac_mant(gm0, i as nat),
            acc == frac_acc(gm0, i as nat),
            65536 <= mi < 131072,
            acc < pow2(i as nat),
        decreases 16 - i,
    {
        proof {
            lemma_sq_mant_bounds(mi as int);
            lemma_pow2_mono(i as nat, 16);
            lemma_pow2_values();
        }
        let m2: u64 = (mi * mi) / 65536;
        if m2 >= 131072 {
            mi = m2 / 2;
            acc = acc * 2 + 1;
        } else {
            mi = m2;
            acc = acc * 2;
        }
        i = i + 1;
    }
    proof {
        lemma_pow2_values();
        assert(acc < 65536);
        assert(mant_fp(x as int) == gm0);
        assert(log2_fp(x as int) == k * 65536 + acc);
    }
    let logfp: u64 = k * 65536 + acc;
    let r: u64 = (logfp * 45426) / 65536;
    proof {
        assert(logfp <= 2097151);
        lemma_div_is_ordered(logfp as int * 45426, (2097151 * 45426) as int, 65536);
    }
    r
}

/// The integer square root of `n`.
pub fn isqrt(n: u64) -> (r: u64)
    requires
        n < 0x1000_0000_0000_0000,
    ensures
        r == sqrt_floor(n as int),
{
    let mut lo: u64 = 0;
    let mut hi: u64 = 0x4000_0000;
    while lo + 1 < hi
        invariant
            lo < hi,
            hi <= 0x4000_0000,
            lo as int * lo as int <= n,
            (n as int) < hi as int * hi as int,
        decreases hi - lo,
    {
        let mid = lo + (hi - lo) / 2;
        proof {
            assert(mid * mid < 0x1000_0000_0000_0000) by (nonlinear_arith)
                requires
                    mid < 0x4000_0000,
            ;
        }
        if mid * mid <= n {
            lo = mid;
        } else {
            hi = mid;
        }
    }
    proof {
        lemma_sqrt_floor_unique(n as int, lo as int);
    }
    lo
}

} // verus!
