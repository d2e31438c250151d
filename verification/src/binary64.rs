//! IEEE-754 binary64 values as bit patterns, and rounding to nearest, ties to even.
//!
//! A pattern without its sign bit is read as a significand and a scale.  Its
//! magnitude counts units of 2^-1074, so every finite value is a whole number
//! of units.  The pattern of infinity is read the same way and stands for
//! 2^1024, the value at which rounding overflows.
//!
//! Patterns are ordered as their magnitudes are, so rounding is a search:
//! the last pattern that is not above the ratio is found by bisection with
//! exact comparisons, and the ratio is then held against the point half way
//! to the next pattern.

use crate::natural::Natural;
use vstd::arithmetic::power2::{lemma2_to64, lemma_pow2_adds, lemma_pow2_pos, pow2};
use vstd::prelude::*;

verus! {

/// The sign bit of a pattern.
pub const SIGN_BIT: u64 = 0x8000_0000_0000_0000;

/// The pattern of positive infinity.
pub const INFINITY_BITS: u64 = 0x7ff0_0000_0000_0000;

/// The pattern of the one NaN that operations return.
pub const NAN_BITS: u64 = 0x7ff8_0000_0000_0000;

/// The pattern of the largest finite value.
pub const MAX_FINITE_BITS: u64 = 0x7fef_ffff_ffff_ffff;

/// 2^52: the implicit leading bit of a normal significand.
pub const HIDDEN_BIT: u64 = 0x0010_0000_0000_0000;

/// The biased exponent in a pattern without sign.
pub open spec fn exponent_field(m: nat) -> nat {
    m / 0x0010_0000_0000_0000
}

/// The 52 fraction bits in a pattern without sign.
pub open spec fn fraction_field(m: nat) -> nat {
    m % 0x0010_0000_0000_0000
}

/// The significand, with the implicit bit of a normal number.
pub open spec fn significand(m: nat) -> nat {
    if exponent_field(m) == 0 {
        fraction_field(m)
    } else {
        0x0010_0000_0000_0000 + fraction_field(m)
    }
}

/// The power of two that the significand is multiplied by, in units of 2^-1074.
pub open spec fn scale(m: nat) -> nat {
    if exponent_field(m) == 0 {
        0
    } else {
        (exponent_field(m) - 1) as nat
    }
}

/// The absolute value of the pattern `m` in units of 2^-1074.
pub open spec fn magnitude(m: nat) -> nat {
    significand(m) * pow2(scale(m))
}

/// The distance between the pattern `m` and the ratio `num / den`, times `den`.
pub open spec fn distance(m: nat, num: nat, den: nat) -> nat {
    let v = magnitude(m) * den;
    if v >= num {
        (v - num) as nat
    } else {
        (num - v) as nat
    }
}

/// `m` is the pattern that `num / den` units of 2^-1074 round to: no pattern
/// up to infinity is nearer, and where another is as near, `m` is the even one.
pub open spec fn rounds_to(num: nat, den: nat, m: nat) -> bool {
    &&& m <= INFINITY_BITS
    &&& forall|k: nat| k <= INFINITY_BITS ==> distance(m, num, den) <= #[trigger] distance(k, num, den)
    &&& forall|k: nat|
        k <= INFINITY_BITS && k != m && #[trigger] distance(k, num, den) == distance(m, num, den)
            ==> m % 2 == 0
}

/// The pattern that `num / den` units of 2^-1074 round to.
pub open spec fn round_pattern(num: nat, den: nat) -> nat {
    choose|m: nat| rounds_to(num, den, m)
}

/// Consecutive patterns differ by one unit in the last place.
pub proof fn lemma_magnitude_step(m: nat)
    ensures
        magnitude(m + 1) == magnitude(m) + pow2(scale(m)),
{
    let e = exponent_field(m);
    let f = fraction_field(m);
    let p = pow2(scale(m));
    let s = significand(m);
    lemma2_to64();
    if f + 1 < 0x0010_0000_0000_0000 {
        assert(exponent_field(m + 1) == e);
        assert(fraction_field(m + 1) == f + 1);
        assert(significand(m + 1) == s + 1);
        assert((s + 1) * p == s * p + p) by (nonlinear_arith);
    } else {
        assert(exponent_field(m + 1) == e + 1);
        assert(fraction_field(m + 1) == 0);
        assert(significand(m + 1) == 0x0010_0000_0000_0000);
        if e == 0 {
            assert(p == 1);
            assert(scale(m + 1) == 0);
            assert(s == 0x000f_ffff_ffff_ffff);
            assert(magnitude(m) == s * 1);
            assert(magnitude(m + 1) == 0x0010_0000_0000_0000 * 1);
        } else {
            assert(scale(m + 1) == scale(m) + 1);
            lemma_pow2_adds(1, scale(m));
            let q = pow2(scale(m + 1));
            assert(q == 2 * p);
            assert(s == 0x001f_ffff_ffff_ffff);
            assert(0x0010_0000_0000_0000 * q == s * p + p) by (nonlinear_arith)
                requires
                    q == 2 * p,
                    s == 0x001f_ffff_ffff_ffff,
            ;
        }
    }
}

/// A larger pattern has a larger magnitude.
pub proof fn lemma_magnitude_monotone(m: nat, n: nat)
    requires
        m <= n,
    ensures
        magnitude(m) <= magnitude(n),
        m < n ==> magnitude(m) < magnitude(n),
    decreases n - m,
{
    if m < n {
        lemma_magnitude_monotone(m, (n - 1) as nat);
        lemma_magnitude_step((n - 1) as nat);
        lemma_pow2_pos(scale((n - 1) as nat));
    }
}

pub proof fn lemma_scaled_monotone(m: nat, n: nat, den: nat)
    requires
        m <= n,
    ensures
        magnitude(m) * den <= magnitude(n) * den,
        m < n && den > 0 ==> magnitude(m) * den < magnitude(n) * den,
{
    lemma_magnitude_monotone(m, n);
    let a = magnitude(m);
    let b = magnitude(n);
    assert(a * den <= b * den) by (nonlinear_arith)
        requires
            a <= b,
    ;
    if m < n && den > 0 {
        assert(a * den < b * den) by (nonlinear_arith)
            requires
                a < b,
                den > 0,
        ;
    }
}

/// A ratio between two consecutive patterns rounds to the nearer of them,
/// and from half way to the even one.
pub proof fn lemma_rounds_between(num: nat, den: nat, lo: nat, m: nat)
    requires
        den > 0,
        lo < INFINITY_BITS,
        magnitude(lo) * den <= num < magnitude(lo + 1) * den,
        m == lo || m == lo + 1,
        2 * num < magnitude(lo) * den + magnitude(lo + 1) * den ==> m == lo,
        2 * num > magnitude(lo) * den + magnitude(lo + 1) * den ==> m == lo + 1,
        2 * num == magnitude(lo) * den + magnitude(lo + 1) * den ==> m % 2 == 0,
    ensures
        rounds_to(num, den, m),
{
    assert forall|k: nat| k <= INFINITY_BITS implies distance(m, num, den) <= #[trigger] distance(
        k,
        num,
        den,
    ) by {
        if k <= lo {
            lemma_scaled_monotone(k, lo, den);
        } else {
            lemma_scaled_monotone(lo + 1, k, den);
        }
    }
    assert forall|k: nat|
        k <= INFINITY_BITS && k != m && #[trigger] distance(k, num, den) == distance(
            m,
            num,
            den,
        ) implies m % 2 == 0 by {
        if k <= lo {
            lemma_scaled_monotone(k, lo, den);
        } else {
            lemma_scaled_monotone(lo + 1, k, den);
        }
    }
}

/// A ratio of at least 2^1024 rounds to infinity.
pub proof fn lemma_rounds_saturated(num: nat, den: nat)
    requires
        den > 0,
        magnitude(INFINITY_BITS as nat) * den <= num,
    ensures
        rounds_to(num, den, INFINITY_BITS as nat),
{
    let top = INFINITY_BITS as nat;
    assert forall|k: nat| k <= INFINITY_BITS implies distance(top, num, den) <= #[trigger] distance(
        k,
        num,
        den,
    ) by {
        lemma_scaled_monotone(k, top, den);
    }
}

/// The magnitude of a pattern rounds to that pattern.
pub proof fn lemma_rounds_exact(m: nat, den: nat)
    requires
        den > 0,
        m <= INFINITY_BITS,
    ensures
        rounds_to(magnitude(m) * den, den, m),
        round_pattern(magnitude(m) * den, den) == m,
{
    if m == INFINITY_BITS {
        lemma_rounds_saturated(magnitude(m) * den, den);
    } else {
        lemma_scaled_monotone(m, m + 1, den);
        lemma_rounds_between(magnitude(m) * den, den, m, m);
    }
    lemma_round_pattern(magnitude(m) * den, den, m);
}

/// What is added to or taken from a pattern's magnitude and stays below a
/// quarter of its unit in the last place is rounded away.
pub proof fn lemma_rounds_absorbed(big: nat, t: nat)
    requires
        big < INFINITY_BITS,
        scale(big) >= 2,
        t < pow2((scale(big) - 2) as nat),
    ensures
        rounds_to(magnitude(big) + t, 1, big),
        t <= magnitude(big),
        rounds_to((magnitude(big) - t) as nat, 1, big),
{
    let k = scale(big);
    lemma_pow2_adds(2, (k - 2) as nat);
    lemma_pow2_adds(1, (k - 1) as nat);
    lemma_pow2_adds(1, (k - 2) as nat);
    lemma2_to64();
    lemma_magnitude_step(big);
    lemma_rounds_between(magnitude(big) + t, 1, big, big);
    let below = (big - 1) as nat;
    lemma_magnitude_step(below);
    let q = pow2(scale(below));
    assert(scale(below) == k || scale(below) == k - 1);
    assert(2 * t < q);
    if t > 0 {
        lemma_rounds_between((magnitude(big) - t) as nat, 1, below, big);
    } else {
        assert(magnitude(big) - t == magnitude(big) + t);
    }
}

/// Rounding depends on the ratio alone: a common factor changes nothing.
pub proof fn lemma_rounds_scaled(num: nat, den: nat, c: nat, m: nat)
    requires
        den > 0,
        c > 0,
        rounds_to(num, den, m),
    ensures
        rounds_to(num * c, den * c, m),
        round_pattern(num * c, den * c) == m,
{
    assert forall|k: nat| #[trigger] distance(k, num * c, den * c) == distance(k, num, den) * c by {
        let v = magnitude(k);
        assert(v * (den * c) == (v * den) * c) by (nonlinear_arith);
        assert((v * den >= num) == ((v * den) * c >= num * c)) by (nonlinear_arith)
            requires
                c > 0,
        ;
        assert((v * den - num) * c == (v * den) * c - num * c) by (nonlinear_arith);
        assert((num - v * den) * c == num * c - (v * den) * c) by (nonlinear_arith);
    }
    let dm = distance(m, num, den);
    assert forall|k: nat| k <= INFINITY_BITS implies distance(m, num * c, den * c)
        <= #[trigger] distance(k, num * c, den * c) by {
        let dk = distance(k, num, den);
        assert(dm * c <= dk * c) by (nonlinear_arith)
            requires
                dm <= dk,
        ;
    }
    assert forall|k: nat|
        k <= INFINITY_BITS && k != m && #[trigger] distance(k, num * c, den * c) == distance(
            m,
            num * c,
            den * c,
        ) implies m % 2 == 0 by {
        let dk = distance(k, num, den);
        assert(dk == dm) by (nonlinear_arith)
            requires
                dk * c == dm * c,
                c > 0,
        ;
    }
    assert(den * c > 0) by (nonlinear_arith)
        requires
            den > 0,
            c > 0,
    ;
    lemma_round_pattern(num * c, den * c, m);
}

/// The last pattern from `k` on whose magnitude is at most `x`.
pub proof fn lemma_floor_pattern(x: nat, k: nat) -> (lo: nat)
    requires
        k <= INFINITY_BITS,
        magnitude(k) <= x < magnitude(INFINITY_BITS as nat),
    ensures
        k <= lo < INFINITY_BITS,
        magnitude(lo) <= x < magnitude(lo + 1),
    decreases INFINITY_BITS - k,
{
    if magnitude(k + 1) > x {
        k
    } else {
        lemma_floor_pattern(x, k + 1)
    }
}

/// Every ratio rounds to some pattern.
pub proof fn lemma_rounding_exists(num: nat, den: nat)
    requires
        den > 0,
    ensures
        rounds_to(num, den, round_pattern(num, den)),
{
    let top = INFINITY_BITS as nat;
    if num >= magnitude(top) * den {
        lemma_rounds_saturated(num, den);
    } else {
        let x = num / den;
        assert(magnitude(0) == 0) by (nonlinear_arith)
            requires
                magnitude(0) == 0 * pow2(scale(0)),
        ;
        assert(x * den <= num < (x + 1) * den) by (nonlinear_arith)
            requires
                x == num / den,
                den > 0,
        ;
        assert(x < magnitude(top)) by (nonlinear_arith)
            requires
                x * den <= num,
                num < magnitude(top) * den,
                den > 0,
        ;
        let lo = lemma_floor_pattern(x, 0);
        let a = magnitude(lo);
        let b = magnitude(lo + 1);
        assert(a * den <= num) by (nonlinear_arith)
            requires
                a <= x,
                x * den <= num,
        ;
        assert(num < b * den) by (nonlinear_arith)
            requires
                x + 1 <= b,
                num < (x + 1) * den,
        ;
        let m = if 2 * num < a * den + b * den {
            lo
        } else if 2 * num > a * den + b * den {
            lo + 1
        } else if lo % 2 == 0 {
            lo
        } else {
            lo + 1
        };
        lemma_rounds_between(num, den, lo, m);
    }
}

/// Rounding overflows to infinity from 2^1024 - 2^970 on, and not below.
pub proof fn lemma_overflow_threshold(num: nat, den: nat)
    requires
        den > 0,
    ensures
        magnitude(INFINITY_BITS as nat) == pow2(2098),
        magnitude(MAX_FINITE_BITS as nat) == pow2(2098) - 2 * pow2(2044),
        round_pattern(num, den) == INFINITY_BITS <==> num >= (pow2(2098) - pow2(2044)) * den,
{
    let top = INFINITY_BITS as nat;
    let max = MAX_FINITE_BITS as nat;
    lemma2_to64();
    vstd::arithmetic::power2::lemma2_to64_rest();
    lemma_pow2_adds(52, 2046);
    lemma_pow2_adds(1, 2044);
    lemma_pow2_adds(1, 2045);
    lemma_pow2_pos(2044);
    assert(magnitude(top) == 0x10_0000_0000_0000 * pow2(2046));
    lemma_magnitude_step(max);
    assert(scale(max) == 2045);
    let a = magnitude(max) * den;
    let b = magnitude(top) * den;
    let edge = (pow2(2098) - pow2(2044)) * den;
    assert(2 * edge == a + b) by (nonlinear_arith)
        requires
            edge == (pow2(2098) - pow2(2044)) * den,
            a == (pow2(2098) - 2 * pow2(2044)) * den,
            b == pow2(2098) * den,
    ;
    lemma_scaled_monotone(max, top, den);
    lemma_rounding_exists(num, den);
    let m = round_pattern(num, den);
    if num >= edge {
        if num >= b {
            lemma_rounds_saturated(num, den);
        } else {
            lemma_rounds_between(num, den, max, top);
        }
        lemma_round_pattern(num, den, top);
    } else {
        if m == top {
            assert(distance(top, num, den) <= distance(max, num, den));
        }
    }
}

/// No ratio rounds to two patterns.
pub proof fn lemma_rounding_unique(num: nat, den: nat, m1: nat, m2: nat)
    requires
        den > 0,
        rounds_to(num, den, m1),
        rounds_to(num, den, m2),
    ensures
        m1 == m2,
{
    if m1 != m2 {
        let lo = if m1 < m2 { m1 } else { m2 };
        let hi = if m1 < m2 { m2 } else { m1 };
        assert(distance(lo, num, den) == distance(hi, num, den));
        assert(lo % 2 == 0 && hi % 2 == 0);
        let k = lo + 1;
        lemma_scaled_monotone(lo, k, den);
        lemma_scaled_monotone(k, hi, den);
        assert(distance(k, num, den) < distance(lo, num, den));
    }
}

/// The pattern that a ratio rounds to is the one that `round_pattern` names.
pub proof fn lemma_round_pattern(num: nat, den: nat, m: nat)
    requires
        den > 0,
        rounds_to(num, den, m),
    ensures
        round_pattern(num, den) == m,
{
    lemma_rounding_unique(num, den, m, round_pattern(num, den));
}

/// The significand of a pattern without sign.
pub fn pattern_significand(m: u64) -> (s: u64)
    requires
        m <= INFINITY_BITS,
    ensures
        s == significand(m as nat),
        s < 0x0020_0000_0000_0000,
{
    let e: u64 = m / HIDDEN_BIT;
    let f: u64 = m % HIDDEN_BIT;
    if e == 0 {
        f
    } else {
        HIDDEN_BIT + f
    }
}

/// The scale of a pattern without sign.
pub fn pattern_scale(m: u64) -> (k: usize)
    requires
        m <= INFINITY_BITS,
    ensures
        k == scale(m as nat),
        k <= 2046,
{
    let e: u64 = m / HIDDEN_BIT;
    if e == 0 {
        0
    } else {
        (e - 1) as usize
    }
}

/// `den` times the magnitude of the pattern `m`.
pub fn scaled_by(den: &Natural, m: u64) -> (r: Natural)
    requires
        m <= INFINITY_BITS,
    ensures
        r@ == magnitude(m as nat) * den@,
{
    let s: u64 = pattern_significand(m);
    let k: usize = pattern_scale(m);
    let r = den.mul_add_small(s, 0).shl(k);
    proof {
        let p = pow2(k as nat);
        let d = den@;
        assert((d * s + 0) * p == (s * p) * d) by (nonlinear_arith);
    }
    r
}

/// Rounds `num / den` units of 2^-1074 to the nearest pattern, ties to even;
/// the pattern of infinity comes out from 2^1024 - 2^970 on.
pub fn round_ratio(num: &Natural, den: &Natural) -> (m: u64)
    requires
        den@ > 0,
    ensures
        m <= INFINITY_BITS,
        rounds_to(num@, den@, m as nat),
        m == round_pattern(num@, den@),
{
    let mut lo: u64 = 0;
    let mut hi: u64 = INFINITY_BITS + 1;
    proof {
        assert(significand(0) == 0);
        assert(magnitude(0) == 0) by (nonlinear_arith)
            requires
                magnitude(0) == 0 * pow2(scale(0)),
        ;
        assert(magnitude(0) * den@ == 0) by (nonlinear_arith)
            requires
                magnitude(0) == 0,
        ;
    }
    while hi - lo > 1
        invariant
            lo < hi <= INFINITY_BITS + 1,
            den@ > 0,
            magnitude(lo as nat) * den@ <= num@,
            hi <= INFINITY_BITS ==> num@ < magnitude(hi as nat) * den@,
        decreases hi - lo,
    {
        let mid: u64 = lo + (hi - lo) / 2;
        let probe = scaled_by(den, mid);
        if probe.le(num) {
            lo = mid;
        } else {
            hi = mid;
        }
    }
    if lo == INFINITY_BITS {
        proof {
            lemma_rounds_saturated(num@, den@);
            lemma_round_pattern(num@, den@, lo as nat);
        }
        return lo;
    }
    let s: u64 = pattern_significand(lo);
    let k: usize = pattern_scale(lo);
    let twice = num.mul_add_small(2, 0);
    let midpoint = den.mul_add_small(2 * s + 1, 0).shl(k);
    proof {
        lemma_magnitude_step(lo as nat);
        let p = pow2(k as nat);
        let d = den@;
        assert((d * (2 * s + 1) + 0) * p == (s * p) * d + (s * p + p) * d) by (nonlinear_arith);
    }
    let m: u64 = if !twice.le(&midpoint) {
        lo + 1
    } else if !midpoint.le(&twice) {
        lo
    } else if lo % 2 == 0 {
        lo
    } else {
        lo + 1
    };
    proof {
        lemma_rounds_between(num@, den@, lo as nat, m as nat);
        lemma_round_pattern(num@, den@, m as nat);
    }
    m
}

} // verus!
