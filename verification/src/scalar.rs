//! Binary64 scalars and their arithmetic, each result correctly rounded.

use crate::binary64::{
    lemma_magnitude_monotone, lemma_round_pattern, lemma_rounds_absorbed, lemma_rounds_exact,
    magnitude, pattern_scale, pattern_significand, round_pattern, round_ratio, scale,
    INFINITY_BITS, NAN_BITS, SIGN_BIT,
};
use crate::natural::Natural;
use vstd::arithmetic::power2::{
    lemma2_to64_rest, lemma_pow2_adds, lemma_pow2_pos, lemma_pow2_strictly_increases, pow2,
};
use vstd::prelude::*;

verus! {

/// A binary64 value, held as its bit pattern.
#[derive(Clone, Copy, Debug, PartialEq, Eq, Structural)]
pub struct Scalar {
    pub bits: u64,
}

/// The scalar with the given sign and pattern.
pub open spec fn pack(negative: bool, pattern: nat) -> Scalar {
    Scalar { bits: if negative { (pattern + SIGN_BIT) as u64 } else { pattern as u64 } }
}

/// The scalar that `num / den` units of 2^-1074 round to, with the given sign.
pub open spec fn rounded(negative: bool, num: nat, den: nat) -> Scalar {
    pack(negative, round_pattern(num, den))
}

/// The NaN that operations return.
pub open spec fn nan_value() -> Scalar {
    Scalar { bits: NAN_BITS }
}

impl Scalar {
    /// Whether the sign bit is set.
    pub open spec fn negative(self) -> bool {
        self.bits >= SIGN_BIT
    }

    /// The bits without the sign bit.
    pub open spec fn pattern(self) -> nat {
        if self.bits >= SIGN_BIT {
            (self.bits - SIGN_BIT) as nat
        } else {
            self.bits as nat
        }
    }

    pub open spec fn nan(self) -> bool {
        self.pattern() > INFINITY_BITS
    }

    pub open spec fn infinite(self) -> bool {
        self.pattern() == INFINITY_BITS
    }

    pub open spec fn finite(self) -> bool {
        self.pattern() < INFINITY_BITS
    }

    pub open spec fn zero(self) -> bool {
        self.pattern() == 0
    }

    /// The absolute value in units of 2^-1074; of infinity, 2^2098.
    pub open spec fn magnitude(self) -> nat {
        magnitude(self.pattern())
    }

    /// The value in units of 2^-1074.
    pub open spec fn units(self) -> int {
        if self.negative() {
            -(self.magnitude() as int)
        } else {
            self.magnitude() as int
        }
    }

    pub fn from_bits(bits: u64) -> (r: Scalar)
        ensures
            r.bits == bits,
    {
        Scalar { bits }
    }

    pub fn to_bits(self) -> (bits: u64)
        ensures
            bits == self.bits,
    {
        self.bits
    }

    /// The scalar with the given sign and pattern.
    pub fn from_parts(negative: bool, pattern: u64) -> (r: Scalar)
        requires
            pattern < SIGN_BIT,
        ensures
            r == pack(negative, pattern as nat),
            r.negative() == negative,
            r.pattern() == pattern,
    {
        if negative {
            Scalar { bits: pattern + SIGN_BIT }
        } else {
            Scalar { bits: pattern }
        }
    }

    #[verifier::when_used_as_spec(negative)]
    pub fn is_sign_negative(self) -> (r: bool)
        ensures
            r == self.negative(),
    {
        self.bits >= SIGN_BIT
    }

    pub fn abs_bits(self) -> (r: u64)
        ensures
            r == self.pattern(),
    {
        if self.bits >= SIGN_BIT {
            self.bits - SIGN_BIT
        } else {
            self.bits
        }
    }

    #[verifier::when_used_as_spec(nan)]
    pub fn is_nan(self) -> (r: bool)
        ensures
            r == self.nan(),
    {
        self.abs_bits() > INFINITY_BITS
    }

    #[verifier::when_used_as_spec(infinite)]
    pub fn is_infinite(self) -> (r: bool)
        ensures
            r == self.infinite(),
    {
        self.abs_bits() == INFINITY_BITS
    }

    #[verifier::when_used_as_spec(finite)]
    pub fn is_finite(self) -> (r: bool)
        ensures
            r == self.finite(),
    {
        self.abs_bits() < INFINITY_BITS
    }

    #[verifier::when_used_as_spec(zero)]
    pub fn is_zero(self) -> (r: bool)
        ensures
            r == self.zero(),
    {
        self.abs_bits() == 0
    }

    /// The same value with the other sign.
    pub fn negated(self) -> (r: Scalar)
        ensures
            r == pack(!self.negative(), self.pattern()),
    {
        Scalar::from_parts(!self.is_sign_negative(), self.abs_bits())
    }

    /// Rounds `num / den` units of 2^-1074 and gives the result the sign.
    pub fn round_signed(negative: bool, num: &Natural, den: &Natural) -> (r: Scalar)
        requires
            den@ > 0,
        ensures
            r == rounded(negative, num@, den@),
    {
        Scalar::from_parts(negative, round_ratio(num, den))
    }
}

/// The absolute value of an integer.
pub open spec fn abs(i: int) -> nat {
    if i < 0 {
        (-i) as nat
    } else {
        i as nat
    }
}

/// The scalar nearest to the integer `i`.
pub open spec fn from_int_spec(i: int) -> Scalar {
    rounded(i < 0, abs(i) * pow2(1074), 1)
}

/// The sum of two finite values given in units of 2^-1074: a zero sum is
/// negative only where both terms are, another sum is rounded.
pub open spec fn finite_sum(a_units: int, a_negative: bool, b_units: int, b_negative: bool) -> Scalar {
    let s = a_units + b_units;
    if s == 0 {
        pack(a_negative && b_negative, 0)
    } else {
        rounded(s < 0, abs(s), 1)
    }
}

/// `a + b` in binary64 arithmetic.
pub open spec fn sum_spec(a: Scalar, b: Scalar) -> Scalar {
    if a.nan() || b.nan() {
        nan_value()
    } else if a.infinite() && b.infinite() {
        if a.negative() == b.negative() {
            a
        } else {
            nan_value()
        }
    } else if a.infinite() {
        a
    } else if b.infinite() {
        b
    } else {
        finite_sum(a.units(), a.negative(), b.units(), b.negative())
    }
}

/// `a - b` in binary64 arithmetic.
pub open spec fn difference_spec(a: Scalar, b: Scalar) -> Scalar {
    sum_spec(a, pack(!b.negative(), b.pattern()))
}

/// `a * b` in binary64 arithmetic.
pub open spec fn product_spec(a: Scalar, b: Scalar) -> Scalar {
    let negative = a.negative() != b.negative();
    if a.nan() || b.nan() {
        nan_value()
    } else if a.infinite() || b.infinite() {
        if a.zero() || b.zero() {
            nan_value()
        } else {
            pack(negative, INFINITY_BITS as nat)
        }
    } else {
        rounded(negative, a.magnitude() * b.magnitude(), pow2(1074))
    }
}

/// `a / b` in binary64 arithmetic.
pub open spec fn quotient_spec(a: Scalar, b: Scalar) -> Scalar {
    let negative = a.negative() != b.negative();
    if a.nan() || b.nan() {
        nan_value()
    } else if a.infinite() {
        if b.infinite() {
            nan_value()
        } else {
            pack(negative, INFINITY_BITS as nat)
        }
    } else if b.infinite() {
        pack(negative, 0)
    } else if b.zero() {
        if a.zero() {
            nan_value()
        } else {
            pack(negative, INFINITY_BITS as nat)
        }
    } else {
        rounded(negative, a.magnitude() * pow2(1074), b.magnitude())
    }
}

/// The sum of two finite values, the first with the larger pattern.
fn sum_ordered(big: u64, big_negative: bool, small: u64, small_negative: bool) -> (r: Scalar)
    requires
        small <= big < INFINITY_BITS,
    ensures
        r == finite_sum(
            pack(big_negative, big as nat).units(),
            big_negative,
            pack(small_negative, small as nat).units(),
            small_negative,
        ),
{
    let ghost mb = magnitude(big as nat);
    let ghost ms = magnitude(small as nat);
    proof {
        lemma_magnitude_monotone(small as nat, big as nat);
        lemma_magnitude_monotone(0, small as nat);
        lemma_magnitude_monotone(0, big as nat);
        assert(magnitude(0) == 0) by (nonlinear_arith)
            requires
                magnitude(0) == 0 * pow2(scale(0)),
        ;
        assert(mb * 1 == mb);
    }
    if small == 0 {
        if big == 0 {
            return Scalar::from_parts(big_negative && small_negative, 0);
        }
        proof {
            lemma_rounds_exact(big as nat, 1);
        }
        return Scalar::from_parts(big_negative, big);
    }
    if big_negative != small_negative && big == small {
        return Scalar::from_parts(false, 0);
    }
    let kb: usize = pattern_scale(big);
    let ks: usize = pattern_scale(small);
    let sb: u64 = pattern_significand(big);
    let ss: u64 = pattern_significand(small);
    let d: usize = kb - ks;
    proof {
        lemma_pow2_adds(d as nat, ks as nat);
        lemma_pow2_pos(ks as nat);
        lemma_pow2_pos(d as nat);
    }
    if d >= 64 {
        proof {
            lemma2_to64_rest();
            lemma_pow2_adds(53, ks as nat);
            lemma_pow2_strictly_increases((53 + ks) as nat, (kb - 2) as nat);
            let p = pow2(ks as nat);
            assert(ss * p < 0x20_0000_0000_0000 * p) by (nonlinear_arith)
                requires
                    ss < 0x20_0000_0000_0000,
                    p > 0,
            ;
            lemma_rounds_absorbed(big as nat, ms);
            lemma_round_pattern(mb + ms, 1, big as nat);
            lemma_round_pattern((mb - ms) as nat, 1, big as nat);
        }
        return Scalar::from_parts(big_negative, big);
    }
    let p: u64 = Natural::small_power_of_two(d as u32);
    assert(sb * p < 0x20_0000_0000_0000 * 0x1_0000_0000_0000_0000) by (nonlinear_arith)
        requires
            sb < 0x20_0000_0000_0000,
            p < 0x1_0000_0000_0000_0000,
    ;
    let wide: u128 = (sb as u128) * (p as u128);
    proof {
        let q = pow2(ks as nat);
        assert(wide * q == mb) by (nonlinear_arith)
            requires
                wide == sb * p,
                mb == sb * (p * q),
        ;
        assert(ms == ss * q);
        if wide < ss {
            assert(wide * q <= ss * q) by (nonlinear_arith)
                requires
                    wide < ss,
                    q > 0,
            ;
        }
        assert((wide + ss) * q == wide * q + ss * q) by (nonlinear_arith);
        assert((wide - ss) * q == wide * q - ss * q) by (nonlinear_arith);
        if wide == ss {
            assert(mb == ms);
        }
    }
    let v: u128 = if big_negative == small_negative {
        wide + (ss as u128)
    } else {
        wide - (ss as u128)
    };
    let num = Natural::from_u128(v).shl(ks);
    let den = Natural::from_u64(1);
    Scalar::round_signed(big_negative, &num, &den)
}

impl Scalar {
    /// The scalar nearest to `i`, which is `i` itself.
    pub fn from_i32(i: i32) -> (r: Scalar)
        ensures
            r == from_int_spec(i as int),
    {
        let negative: bool = i < 0;
        let n: u64 = if negative {
            (-(i as i64)) as u64
        } else {
            i as u64
        };
        let num = Natural::from_u64(n).shl(1074);
        let den = Natural::from_u64(1);
        Scalar::round_signed(negative, &num, &den)
    }

    /// `self + other`, correctly rounded.
    pub fn plus(self, other: Scalar) -> (r: Scalar)
        ensures
            r == sum_spec(self, other),
    {
        if self.is_nan() || other.is_nan() {
            return Scalar { bits: NAN_BITS };
        }
        if self.is_infinite() {
            if other.is_infinite() && self.is_sign_negative() != other.is_sign_negative() {
                return Scalar { bits: NAN_BITS };
            }
            return self;
        }
        if other.is_infinite() {
            return other;
        }
        let pa: u64 = self.abs_bits();
        let pb: u64 = other.abs_bits();
        let na: bool = self.is_sign_negative();
        let nb: bool = other.is_sign_negative();
        if pa >= pb {
            sum_ordered(pa, na, pb, nb)
        } else {
            sum_ordered(pb, nb, pa, na)
        }
    }

    /// `self - other`, correctly rounded.
    pub fn minus(self, other: Scalar) -> (r: Scalar)
        ensures
            r == difference_spec(self, other),
    {
        self.plus(other.negated())
    }

    /// `self * other`, correctly rounded.
    pub fn times(self, other: Scalar) -> (r: Scalar)
        ensures
            r == product_spec(self, other),
    {
        let negative: bool = self.is_sign_negative() != other.is_sign_negative();
        if self.is_nan() || other.is_nan() {
            return Scalar { bits: NAN_BITS };
        }
        if self.is_infinite() || other.is_infinite() {
            if self.is_zero() || other.is_zero() {
                return Scalar { bits: NAN_BITS };
            }
            return Scalar::from_parts(negative, INFINITY_BITS);
        }
        let pa: u64 = self.abs_bits();
        let pb: u64 = other.abs_bits();
        let sa: u64 = pattern_significand(pa);
        let sb: u64 = pattern_significand(pb);
        let ka: usize = pattern_scale(pa);
        let kb: usize = pattern_scale(pb);
        assert(sa * sb < 0x20_0000_0000_0000 * 0x20_0000_0000_0000) by (nonlinear_arith)
            requires
                sa < 0x20_0000_0000_0000,
                sb < 0x20_0000_0000_0000,
        ;
        let wide: u128 = (sa as u128) * (sb as u128);
        let num = Natural::from_u128(wide).shl(ka + kb);
        let den = Natural::from_u64(1).shl(1074);
        proof {
            lemma_pow2_adds(ka as nat, kb as nat);
            lemma_pow2_pos(1074);
            let p = pow2(ka as nat);
            let q = pow2(kb as nat);
            assert((sa * sb) * (p * q) == (sa * p) * (sb * q)) by (nonlinear_arith);
        }
        Scalar::round_signed(negative, &num, &den)
    }

    /// `self / other`, correctly rounded.
    pub fn divided_by(self, other: Scalar) -> (r: Scalar)
        ensures
            r == quotient_spec(self, other),
    {
        let negative: bool = self.is_sign_negative() != other.is_sign_negative();
        if self.is_nan() || other.is_nan() {
            return Scalar { bits: NAN_BITS };
        }
        if self.is_infinite() {
            if other.is_infinite() {
                return Scalar { bits: NAN_BITS };
            }
            return Scalar::from_parts(negative, INFINITY_BITS);
        }
        if other.is_infinite() {
            return Scalar::from_parts(negative, 0);
        }
        if other.is_zero() {
            if self.is_zero() {
                return Scalar { bits: NAN_BITS };
            }
            return Scalar::from_parts(negative, INFINITY_BITS);
        }
        let pa: u64 = self.abs_bits();
        let pb: u64 = other.abs_bits();
        let sa: u64 = pattern_significand(pa);
        let sb: u64 = pattern_significand(pb);
        let ka: usize = pattern_scale(pa);
        let kb: usize = pattern_scale(pb);
        let num = Natural::from_u64(sa).shl(ka + 1074);
        let den = Natural::from_u64(sb).shl(kb);
        proof {
            lemma_pow2_adds(ka as nat, 1074);
            lemma_pow2_pos(kb as nat);
            let p = pow2(ka as nat);
            let q = pow2(1074);
            assert(sa * (p * q) == (sa * p) * q) by (nonlinear_arith);
            let w = pow2(kb as nat);
            assert(sb * w > 0) by (nonlinear_arith)
                requires
                    sb > 0,
                    w > 0,
            ;
        }
        Scalar::round_signed(negative, &num, &den)
    }
}

} // verus!
