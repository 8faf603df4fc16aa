//! Fixed-point arithmetic for token weights and similarity scores.
//!
//! A stored value `x: u64` stands for the real number `x / SCALE`.  All
//! intermediate products are computed in `u128`, so the only rounding is the
//! floor taken by integer division, and every operation has an exact
//! integer specification.

use vstd::arithmetic::power2::pow2;
use vstd::prelude::*;

verus! {

/// Scaling factor of the fixed-point representation.
pub const SCALE: u64 = 1_000_000_000;

/// `ln(2) * SCALE`, rounded down.
pub const LN2_FIXED: u64 = 693_147_180;

/// Upper bound on [`spec_ln_fixed`] over all of `u64`: `64 * LN2_FIXED`.
pub const LN_BOUND: u64 = 44_361_419_520;

/// Number of fractional bits carried while extracting the base-2 logarithm.
pub const FRAC_BITS: u64 = 30;

/// `2 ^ FRAC_BITS`.
pub const FRAC_ONE: u64 = 1_073_741_824;

/// `r` is the floor of the square root of `x`.
pub open spec fn is_isqrt(x: int, r: int) -> bool {
    &&& 0 <= r
    &&& r * r <= x
    &&& x < (r + 1) * (r + 1)
}

/// Floor of the square root of a non-negative integer.
pub closed spec fn spec_isqrt(x: int) -> int {
    choose|r: int| is_isqrt(x, r)
}

/// The floor of the square root exists for every non-negative integer.
pub proof fn lemma_isqrt_exists(x: int)
    requires
        0 <= x,
    ensures
        is_isqrt(x, spec_isqrt(x)),
    decreases x,
{
    if x == 0 {
        assert(is_isqrt(0, 0)) by (nonlinear_arith);
    } else {
        lemma_isqrt_exists(x - 1);
        let p = spec_isqrt(x - 1);
        if x < (p + 1) * (p + 1) {
            assert(is_isqrt(x, p));
        } else {
            assert(x == (p + 1) * (p + 1));
            assert(is_isqrt(x, p + 1)) by (nonlinear_arith)
                requires x == (p + 1) * (p + 1) && p >= 0;
        }
    }
    let w = choose|r: int| is_isqrt(x, r);
    assert(is_isqrt(x, w));
}

/// The floor of the square root is unique.
pub proof fn lemma_isqrt_unique(x: int, r: int)
    requires
        is_isqrt(x, r),
    ensures
        r == spec_isqrt(x),
{
    lemma_isqrt_exists(x);
    let s = spec_isqrt(x);
    assert(r == s) by (nonlinear_arith)
        requires is_isqrt(x, r) && is_isqrt(x, s);
}

/// Floor of the square root, by bisection.
pub fn isqrt_u128(x: u128) -> (r: u128)
    ensures
        r == spec_isqrt(x as int),
        r * r <= x,
{
    let mut lo: u128 = 0;
    let mut hi: u128 = 1u128 << 64;
    proof {
        assert((1u128 << 64) == 0x1_0000_0000_0000_0000u128) by (bit_vector);
        assert(x < (0x1_0000_0000_0000_0000 as int) * (0x1_0000_0000_0000_0000 as int))
            by (nonlinear_arith)
            requires x <= u128::MAX;
    }
    while lo + 1 < hi
        invariant
            lo < hi,
            hi <= 0x1_0000_0000_0000_0000u128,
            (lo as int) * (lo as int) <= x as int,
            (x as int) < (hi as int) * (hi as int),
        decreases hi - lo,
    {
        let mid: u128 = lo + (hi - lo) / 2;
        proof {
            assert(mid < hi);
            assert((mid as int) * (mid as int) <= (0xFFFF_FFFF_FFFF_FFFFu64 as int)
                * (0xFFFF_FFFF_FFFF_FFFFu64 as int)) by (nonlinear_arith)
                requires mid <= 0xFFFF_FFFF_FFFF_FFFFu128;
        }
        if mid * mid <= x {
            lo = mid;
        } else {
            hi = mid;
        }
    }
    proof {
        assert(is_isqrt(x as int, lo as int));
        lemma_isqrt_unique(x as int, lo as int);
    }
    lo
}

/// Upper bound on [`spec_w2`] of any weight at most [`LN_BOUND`].
pub const W2_BOUND: u64 = 2_000_000_000_000;

/// The fixed-point square of a weight: `w^2 / SCALE`, still `SCALE`-scaled.
pub open spec fn spec_w2(w: int) -> int {
    (w * w) / (SCALE as int)
}

pub proof fn lemma_w2_bound(w: int)
    requires
        0 <= w <= LN_BOUND,
    ensures
        0 <= spec_w2(w) <= W2_BOUND,
{
    assert(w * w <= (LN_BOUND as int) * (LN_BOUND as int)) by (nonlinear_arith)
        requires 0 <= w <= LN_BOUND;
    assert(0 <= w * w) by (nonlinear_arith)
        requires 0 <= w;
    assert((w * w) / (SCALE as int) <= W2_BOUND) by (nonlinear_arith)
        requires 0 <= w * w <= 44_361_419_520int * 44_361_419_520int
            && SCALE == 1_000_000_000u64 && W2_BOUND == 2_000_000_000_000u64;
}

/// The product of two `u64` values fits in `u128`.
pub proof fn lemma_u64_mul_fits(a: u64, b: u64)
    ensures
        0 <= (a as int) * (b as int) <= u128::MAX,
{
    assert(0 <= (a as int) * (b as int) <= (0xFFFF_FFFF_FFFF_FFFFu64 as int)
        * (0xFFFF_FFFF_FFFF_FFFFu64 as int)) by (nonlinear_arith)
        requires 0 <= a <= 0xFFFF_FFFF_FFFF_FFFFu64 && 0 <= b <= 0xFFFF_FFFF_FFFF_FFFFu64;
}

/// Clamp a fixed-point score at 1.0.  The per-token floor in the squared
/// norms can undervalue the denominator slightly, so the raw quotient may
/// exceed the unit score by a little; the clamp makes the advertised range
/// `[0, SCALE]` part of the score's definition.
pub open spec fn spec_clamp_score(x: int) -> int {
    if x > SCALE {
        SCALE as int
    } else {
        x
    }
}

/// Position of the most significant bit of `n`: the largest `k` with
/// `2^k <= n` (and `0` for `n < 2`).
pub open spec fn spec_msb(n: int) -> int
    decreases n,
{
    if n < 2 {
        0
    } else {
        1 + spec_msb(n / 2)
    }
}

pub proof fn lemma_msb_range(n: int)
    requires
        n >= 1,
    ensures
        0 <= spec_msb(n),
        pow2(spec_msb(n) as nat) <= n < pow2((spec_msb(n) + 1) as nat),
    decreases n,
{
    if n < 2 {
        vstd::arithmetic::power2::lemma2_to64();
    } else {
        lemma_msb_range(n / 2);
        let k = spec_msb(n / 2);
        vstd::arithmetic::power2::lemma_pow2_adds(k as nat, 1);
        vstd::arithmetic::power2::lemma_pow2_adds((k + 1) as nat, 1);
        vstd::arithmetic::power2::lemma2_to64();
        assert(pow2(((k + 1) + 1) as nat) == 2 * pow2((k + 1) as nat));
        assert(pow2((k + 1) as nat) == 2 * pow2(k as nat));
    }
}

pub proof fn lemma_msb_max(n: int)
    requires
        1 <= n <= u64::MAX,
    ensures
        0 <= spec_msb(n) <= 63,
{
    lemma_msb_range(n);
    let k = spec_msb(n);
    if k > 63 {
        if k > 64 {
            vstd::arithmetic::power2::lemma_pow2_strictly_increases(64, k as nat);
        }
        vstd::arithmetic::power2::lemma2_to64_rest();
        assert(pow2(64) == 0x10000000000000000nat);
        assert(false);
    }
}

/// One iteration of the base-2 logarithm bit extraction: square the
/// normalized mantissa and renormalize, yielding the next fraction bit.
pub open spec fn spec_frac_step(x: int) -> (int, int) {
    let y = (x * x) / (FRAC_ONE as int);
    if y >= 2 * (FRAC_ONE as int) {
        (y / 2, 1)
    } else {
        (y, 0)
    }
}

/// `i` iterations of [`spec_frac_step`] starting from `x`, accumulating the
/// extracted bits (most significant first).
pub open spec fn spec_frac_iter(x: int, i: nat) -> (int, int)
    decreases i,
{
    if i == 0 {
        (x, 0)
    } else {
        let prev = spec_frac_iter(x, (i - 1) as nat);
        let step = spec_frac_step(prev.0);
        (step.0, prev.1 * 2 + step.1)
    }
}

pub proof fn lemma_frac_step_range(x: int)
    requires
        FRAC_ONE <= x < 2 * FRAC_ONE,
    ensures
        FRAC_ONE <= spec_frac_step(x).0 < 2 * FRAC_ONE,
        0 <= spec_frac_step(x).1 <= 1,
{
    let f = FRAC_ONE as int;
    let y = (x * x) / f;
    assert(x * x >= f * f && x * x < 4 * (f * f)) by (nonlinear_arith)
        requires f <= x < 2 * f && f > 0;
    assert(y >= f) by (nonlinear_arith)
        requires x * x >= f * f && f > 0 && y == (x * x) / f;
    assert(y < 4 * f) by (nonlinear_arith)
        requires x * x < 4 * (f * f) && f > 0 && y == (x * x) / f;
}

pub proof fn lemma_frac_iter_range(x: int, i: nat)
    requires
        FRAC_ONE <= x < 2 * FRAC_ONE,
    ensures
        FRAC_ONE <= spec_frac_iter(x, i).0 < 2 * FRAC_ONE,
        0 <= spec_frac_iter(x, i).1 < pow2(i),
    decreases i,
{
    vstd::arithmetic::power2::lemma_pow2_pos(i);
    if i > 0 {
        lemma_frac_iter_range(x, (i - 1) as nat);
        lemma_frac_step_range(spec_frac_iter(x, (i - 1) as nat).0);
        vstd::arithmetic::power2::lemma_pow2_adds((i - 1) as nat, 1);
        vstd::arithmetic::power2::lemma2_to64();
    }
}

/// The input of the bit-extraction loop: `n` scaled into `[FRAC_ONE, 2 * FRAC_ONE)`.
pub open spec fn spec_mantissa(n: int) -> int {
    (n * FRAC_ONE) / pow2(spec_msb(n) as nat) as int
}

pub proof fn lemma_mantissa_range(n: int)
    requires
        n >= 1,
    ensures
        FRAC_ONE <= spec_mantissa(n) < 2 * FRAC_ONE,
{
    lemma_msb_range(n);
    let k = spec_msb(n) as nat;
    let p = pow2(k) as int;
    let f = FRAC_ONE as int;
    vstd::arithmetic::power2::lemma_pow2_pos(k);
    vstd::arithmetic::power2::lemma_pow2_adds(k, 1);
    vstd::arithmetic::power2::lemma2_to64();
    assert(pow2((spec_msb(n) + 1) as nat) == 2 * p);
    assert((n * f) / p >= f) by (nonlinear_arith)
        requires p >= 1 && f >= 1 && n >= p;
    assert((n * f) / p < 2 * f) by (nonlinear_arith)
        requires p >= 1 && f >= 1 && n < 2 * p;
}

/// Fixed-point natural logarithm of the positive integer `n` (not itself
/// fixed-point), scaled by [`SCALE`]: the most significant bit gives the
/// integer part of `log2 n`, squaring extracts [`FRAC_BITS`] fraction bits,
/// and the result is converted from base 2 via [`LN2_FIXED`].
pub open spec fn spec_ln_fixed(n: int) -> int {
    let bits = spec_msb(n) * FRAC_ONE + spec_frac_iter(spec_mantissa(n), FRAC_BITS as nat).1;
    (bits * LN2_FIXED) / (FRAC_ONE as int)
}

pub proof fn lemma_ln_fixed_bound(n: int)
    requires
        1 <= n <= u64::MAX,
    ensures
        0 <= spec_ln_fixed(n) <= LN_BOUND,
{
    lemma_msb_max(n);
    lemma_mantissa_range(n);
    lemma_frac_iter_range(spec_mantissa(n), FRAC_BITS as nat);
    assert(pow2(30) == FRAC_ONE) by {
        vstd::arithmetic::power2::lemma2_to64();
    }
    let f = FRAC_ONE as int;
    let l = LN2_FIXED as int;
    let mb = spec_msb(n);
    let fr = spec_frac_iter(spec_mantissa(n), FRAC_BITS as nat).1;
    assert(pow2(FRAC_BITS as nat) == FRAC_ONE);
    let bits = mb * f + fr;
    assert(0 <= bits <= 64 * f - 1) by (nonlinear_arith)
        requires 0 <= mb <= 63 && 0 <= fr < f && bits == mb * f + fr
            && f == 1_073_741_824;
    assert((bits * l) / f <= LN_BOUND) by (nonlinear_arith)
        requires 0 <= bits <= 64 * f - 1 && l == 693_147_180 && f == 1_073_741_824
            && LN_BOUND == 44_361_419_520u64;
    assert((bits * l) / f >= 0) by (nonlinear_arith)
        requires bits >= 0 && l > 0 && f > 0;
}

pub proof fn lemma_frac_iter_fixpoint(i: nat)
    ensures
        spec_frac_iter(FRAC_ONE as int, i) == (FRAC_ONE as int, 0int),
    decreases i,
{
    let f = FRAC_ONE as int;
    if i > 0 {
        lemma_frac_iter_fixpoint((i - 1) as nat);
        assert(f * f / f == f) by (nonlinear_arith)
            requires f > 0;
    }
}

/// `ln 1 == 0` in the fixed-point model.
pub proof fn lemma_ln_fixed_one()
    ensures
        spec_ln_fixed(1) == 0,
{
    assert(spec_msb(1) == 0);
    vstd::arithmetic::power2::lemma2_to64();
    assert((FRAC_ONE as int) / 1int == FRAC_ONE as int) by (nonlinear_arith);
    assert(spec_mantissa(1) == FRAC_ONE);
    lemma_frac_iter_fixpoint(FRAC_BITS as nat);
}

/// `ln 2` is exactly the stored constant in the fixed-point model.
pub proof fn lemma_ln_fixed_two()
    ensures
        spec_ln_fixed(2) == LN2_FIXED,
{
    assert(spec_msb(2) == 1 + spec_msb(1));
    vstd::arithmetic::power2::lemma2_to64();
    assert(spec_mantissa(2) == (2 * FRAC_ONE) / 2);
    lemma_frac_iter_fixpoint(FRAC_BITS as nat);
    let f = FRAC_ONE as int;
    let l = LN2_FIXED as int;
    assert(((1 * f + 0) * l) / f == l) by (nonlinear_arith)
        requires f > 0;
}

/// `2^k` for `k <= 63`.
pub fn pow2_u64(k: u64) -> (r: u64)
    requires
        k <= 63,
    ensures
        r == pow2(k as nat),
{
    let mut i: u64 = 0;
    let mut r: u64 = 1;
    proof {
        vstd::arithmetic::power2::lemma2_to64_rest();
        vstd::arithmetic::power2::lemma2_to64();
    }
    while i < k
        invariant
            i <= k <= 63,
            r == pow2(i as nat),
        decreases k - i,
    {
        proof {
            vstd::arithmetic::power2::lemma_pow2_adds(i as nat, 1);
            vstd::arithmetic::power2::lemma2_to64();
            if i + 1 <= 63 {
                vstd::arithmetic::power2::lemma_pow2_strictly_increases((i + 1) as nat, 64);
            }
            vstd::arithmetic::power2::lemma2_to64_rest();
            assert(pow2(64) == 0x10000000000000000nat);
        }
        r = r * 2;
        i = i + 1;
    }
    r
}

/// Fixed-point natural logarithm of a positive integer.
pub fn ln_fixed(n: u64) -> (r: u64)
    requires
        1 <= n,
    ensures
        r == spec_ln_fixed(n as int),
        r <= LN_BOUND,
{
    // Most significant bit.
    let mut m: u64 = n;
    let mut k: u64 = 0;
    proof {
        vstd::arithmetic::power2::lemma2_to64();
    }
    assert(pow2(0nat) * (n as int) == n as int) by (nonlinear_arith)
        requires pow2(0nat) == 1;
    while m >= 2
        invariant
            1 <= m,
            n <= u64::MAX,
            spec_msb(n as int) == k + spec_msb(m as int),
            pow2(k as nat) * (m as int) <= n as int,
            k <= 63,
        decreases m,
    {
        proof {
            vstd::arithmetic::power2::lemma_pow2_adds(k as nat, 1);
            vstd::arithmetic::power2::lemma2_to64();
            vstd::arithmetic::power2::lemma_pow2_pos(k as nat);
            assert(pow2((k + 1) as nat) == 2 * pow2(k as nat));
            assert(2 * (m / 2) <= m);
            assert(pow2((k + 1) as nat) * ((m / 2) as int) <= n as int) by (nonlinear_arith)
                requires pow2((k + 1) as nat) == 2 * pow2(k as nat)
                    && pow2(k as nat) * (m as int) <= n as int && m >= 2
                    && 2 * ((m / 2) as int) <= m as int && pow2(k as nat) >= 1;
            assert(pow2((k + 1) as nat) <= n as int) by (nonlinear_arith)
                requires pow2((k + 1) as nat) * ((m / 2) as int) <= n as int
                    && (m / 2) as int >= 1 && pow2((k + 1) as nat) >= 1;
            if k + 1 > 63 {
                vstd::arithmetic::power2::lemma_pow2_strictly_increases(64, (k + 1) as nat);
                vstd::arithmetic::power2::lemma2_to64_rest();
                assert(pow2(64) == 0x10000000000000000nat);
                assert(false);
            }
        }
        m = m / 2;
        k = k + 1;
    }
    assert(m == 1);
    assert(spec_msb(n as int) == k);

    // Normalized mantissa in [FRAC_ONE, 2 * FRAC_ONE).
    let pk: u64 = pow2_u64(k);
    proof {
        lemma_mantissa_range(n as int);
        vstd::arithmetic::power2::lemma_pow2_pos(k as nat);
        assert((n as int) * (FRAC_ONE as int) <= (u64::MAX as int) * (FRAC_ONE as int))
            by (nonlinear_arith)
            requires n <= u64::MAX;
    }
    let mantissa128: u128 = ((n as u128) * (FRAC_ONE as u128)) / (pk as u128);
    let mut x: u64 = mantissa128 as u64;
    assert(x == spec_mantissa(n as int));

    // Extract FRAC_BITS fraction bits of log2.
    let ghost x0: int = x as int;
    let mut frac: u64 = 0;
    let mut i: u64 = 0;
    proof {
        vstd::arithmetic::power2::lemma2_to64();
    }
    while i < FRAC_BITS
        invariant
            i <= FRAC_BITS,
            FRAC_ONE <= x0 < 2 * FRAC_ONE,
            (x as int, frac as int) == spec_frac_iter(x0, i as nat),
            FRAC_ONE <= x < 2 * FRAC_ONE,
            frac < pow2(i as nat),
        decreases FRAC_BITS - i,
    {
        proof {
            lemma_frac_iter_range(x0, i as nat);
            lemma_frac_iter_range(x0, (i + 1) as nat);
            assert((x as int) * (x as int) < (2 * FRAC_ONE as int) * (2 * FRAC_ONE as int))
                by (nonlinear_arith)
                requires x < 2 * FRAC_ONE;
            vstd::arithmetic::power2::lemma_pow2_adds(i as nat, 1);
            vstd::arithmetic::power2::lemma2_to64();
        }
        let y: u64 = (x * x) / FRAC_ONE;
        if y >= 2 * FRAC_ONE {
            x = y / 2;
            frac = frac * 2 + 1;
        } else {
            x = y;
            frac = frac * 2;
        }
        i = i + 1;
    }

    // Convert from base 2 to the natural logarithm.
    proof {
        lemma_frac_iter_range(x0, FRAC_BITS as nat);
        vstd::arithmetic::power2::lemma2_to64();
        assert(pow2(30) == FRAC_ONE);
    }
    let bits: u64 = k * FRAC_ONE + frac;
    let r128: u128 = ((bits as u128) * (LN2_FIXED as u128)) / (FRAC_ONE as u128);
    proof {
        lemma_ln_fixed_bound(n as int);
        assert((bits as int) * (LN2_FIXED as int) <= (64 * FRAC_ONE as int) * (LN2_FIXED as int))
            by (nonlinear_arith)
            requires bits <= 64 * FRAC_ONE;
    }
    r128 as u64
}

} // verus!
