//! Decimal literals: which texts are literals, and the scalar each one denotes.
//!
//! A literal is an optional sign followed by `inf`, `infinity` or `nan` in
//! any case, or by a number: digits with at most one point and at least one
//! digit, then optionally `e` or `E`, an optional sign and at least one digit.

use crate::binary64::{
    lemma_round_pattern, lemma_rounds_between, lemma_rounds_exact, lemma_rounds_saturated,
    magnitude, INFINITY_BITS, NAN_BITS,
};
use crate::natural::Natural;
use crate::scalar::{nan_value, pack, rounded, Scalar};
use vstd::arithmetic::power2::{
    lemma2_to64, lemma2_to64_rest, lemma_pow2_adds, lemma_pow2_pos, pow2,
};
use vstd::prelude::*;
use vstd::string::StringSliceAdditionalSpecFns;

verus! {

/// Whether the byte is an ASCII digit.
pub open spec fn is_digit(b: u8) -> bool {
    48 <= b <= 57
}

/// The byte, with an ASCII capital turned into its small letter.
pub open spec fn lower(b: u8) -> u8 {
    if 65 <= b <= 90 {
        (b + 32) as u8
    } else {
        b
    }
}

/// The index at which the digits that start at `i` end.
pub open spec fn digits_end(s: Seq<u8>, i: int) -> int
    decreases s.len() - i,
{
    if 0 <= i < s.len() && is_digit(s[i]) {
        digits_end(s, i + 1)
    } else {
        i
    }
}

/// The number that a sequence of digits denotes.
pub open spec fn decimal_value(digits: Seq<u8>) -> nat
    decreases digits.len(),
{
    if digits.len() == 0 {
        0
    } else {
        decimal_value(digits.drop_last()) * 10 + (digits.last() - 48) as nat
    }
}

/// 10^n.
pub open spec fn pow10(n: nat) -> nat
    decreases n,
{
    if n == 0 {
        1
    } else {
        10 * pow10((n - 1) as nat)
    }
}

/// Whether `s` from `start` on is `inf`, in either case.
pub open spec fn inf_at(s: Seq<u8>, start: int) -> bool {
    &&& s.len() == start + 3
    &&& lower(s[start]) == 105
    &&& lower(s[start + 1]) == 110
    &&& lower(s[start + 2]) == 102
}

/// Whether `s` from `start` on is `infinity`, in either case.
pub open spec fn infinity_at(s: Seq<u8>, start: int) -> bool {
    &&& s.len() == start + 8
    &&& lower(s[start]) == 105
    &&& lower(s[start + 1]) == 110
    &&& lower(s[start + 2]) == 102
    &&& lower(s[start + 3]) == 105
    &&& lower(s[start + 4]) == 110
    &&& lower(s[start + 5]) == 105
    &&& lower(s[start + 6]) == 116
    &&& lower(s[start + 7]) == 121
}

/// Whether `s` from `start` on is `nan`, in either case.
pub open spec fn nan_at(s: Seq<u8>, start: int) -> bool {
    &&& s.len() == start + 3
    &&& lower(s[start]) == 110
    &&& lower(s[start + 1]) == 97
    &&& lower(s[start + 2]) == 110
}

/// The number `digits * 10^exponent`.
pub struct Decimal {
    pub digits: nat,
    pub exponent: int,
}

/// The number that `s` holds from `start` on, if it holds one.
pub open spec fn number_at(s: Seq<u8>, start: int) -> Option<Decimal> {
    let int_end = digits_end(s, start);
    let has_point = int_end < s.len() && s[int_end] == 46;
    let frac_start = if has_point {
        int_end + 1
    } else {
        int_end
    };
    let frac_end = digits_end(s, frac_start);
    let digits = s.subrange(start, int_end) + s.subrange(frac_start, frac_end);
    if digits.len() == 0 {
        None
    } else if frac_end == s.len() {
        Some(Decimal { digits: decimal_value(digits), exponent: -(frac_end - frac_start) })
    } else if lower(s[frac_end]) != 101 {
        None
    } else {
        let sign_at = frac_end + 1;
        let exp_signed = sign_at < s.len() && (s[sign_at] == 43 || s[sign_at] == 45);
        let exp_negative = exp_signed && s[sign_at] == 45;
        let exp_start = if exp_signed {
            sign_at + 1
        } else {
            sign_at
        };
        let exp_end = digits_end(s, exp_start);
        if exp_end == exp_start || exp_end != s.len() {
            None
        } else {
            let x = decimal_value(s.subrange(exp_start, exp_end)) as int;
            Some(
                Decimal {
                    digits: decimal_value(digits),
                    exponent: (if exp_negative { -x } else { x }) - (frac_end - frac_start),
                },
            )
        }
    }
}

/// The scalar nearest to the decimal number, with the given sign.
pub open spec fn decimal_rounded(negative: bool, d: Decimal) -> Scalar {
    if d.exponent >= 0 {
        rounded(negative, d.digits * pow10(d.exponent as nat) * pow2(1074), 1)
    } else {
        rounded(negative, d.digits * pow2(1074), pow10((-d.exponent) as nat))
    }
}

/// The scalar that the text `s` denotes, if `s` is a literal.
pub open spec fn literal_spec(s: Seq<u8>) -> Option<Scalar> {
    let signed = s.len() > 0 && (s[0] == 43 || s[0] == 45);
    let negative = signed && s[0] == 45;
    let start = if signed { 1int } else { 0int };
    if inf_at(s, start) || infinity_at(s, start) {
        Some(pack(negative, INFINITY_BITS as nat))
    } else if nan_at(s, start) {
        Some(nan_value())
    } else {
        match number_at(s, start) {
            Some(d) => Some(decimal_rounded(negative, d)),
            None => None,
        }
    }
}

pub proof fn lemma_pow10_adds(a: nat, b: nat)
    ensures
        pow10(a + b) == pow10(a) * pow10(b),
    decreases a,
{
    if a == 0 {
        assert(pow10(0) * pow10(b) == pow10(b)) by (nonlinear_arith)
            requires
                pow10(0) == 1,
        ;
    } else {
        lemma_pow10_adds((a - 1) as nat, b);
        let x = pow10((a - 1) as nat);
        let y = pow10(b);
        assert((10 * x) * y == 10 * (x * y)) by (nonlinear_arith);
        assert(pow10(a + b) == 10 * pow10((a + b - 1) as nat));
    }
}

pub proof fn lemma_pow10_dominates(n: nat)
    ensures
        pow10(n) >= pow2(n),
        pow10(n) >= 1,
    decreases n,
{
    lemma2_to64();
    if n > 0 {
        lemma_pow10_dominates((n - 1) as nat);
        lemma_pow2_adds(1, (n - 1) as nat);
    }
}

pub proof fn lemma_pow2_monotone(a: nat, b: nat)
    requires
        a <= b,
    ensures
        pow2(a) <= pow2(b),
    decreases b - a,
{
    if a < b {
        lemma_pow2_monotone(a, (b - 1) as nat);
        lemma_pow2_adds(1, (b - 1) as nat);
        lemma2_to64();
        lemma_pow2_pos((b - 1) as nat);
    }
}

/// Digits denote a number below ten to their count.
pub proof fn lemma_decimal_bound(digits: Seq<u8>)
    requires
        forall|i: int| 0 <= i < digits.len() ==> is_digit(digits[i]),
    ensures
        decimal_value(digits) < pow10(digits.len()),
    decreases digits.len(),
{
    if digits.len() > 0 {
        lemma_decimal_bound(digits.drop_last());
    }
}

fn is_digit_byte(b: u8) -> (r: bool)
    ensures
        r == is_digit(b),
{
    48 <= b && b <= 57
}

fn lower_byte(b: u8) -> (r: u8)
    ensures
        r == lower(b),
{
    if 65 <= b && b <= 90 {
        b + 32
    } else {
        b
    }
}

/// Reads the digits from `from` on and appends them to the number in `acc`.
fn scan_digits(b: &[u8], from: usize, acc: Natural, Ghost(prefix): Ghost<Seq<u8>>) -> (r: (
    usize,
    Natural,
))
    requires
        from <= b@.len(),
        acc@ == decimal_value(prefix),
    ensures
        r.0 == digits_end(b@, from as int),
        from <= r.0 <= b@.len(),
        forall|i: int| from <= i < r.0 ==> is_digit(b@[i]),
        r.1@ == decimal_value(prefix + b@.subrange(from as int, r.0 as int)),
{
    let len: usize = b.len();
    let mut i: usize = from;
    let mut value: Natural = acc;
    proof {
        assert(prefix + b@.subrange(from as int, from as int) =~= prefix);
    }
    while i < len && is_digit_byte(b[i])
        invariant
            len == b@.len(),
            from <= i <= len,
            digits_end(b@, from as int) == digits_end(b@, i as int),
            forall|j: int| from <= j < i ==> is_digit(b@[j]),
            value@ == decimal_value(prefix + b@.subrange(from as int, i as int)),
        decreases len - i,
    {
        let d: u64 = (b[i] - 48) as u64;
        proof {
            let old_digits = prefix + b@.subrange(from as int, i as int);
            let new_digits = prefix + b@.subrange(from as int, i + 1);
            assert(new_digits.drop_last() =~= old_digits);
            assert(new_digits.last() == b@[i as int]);
        }
        value = value.mul_add_small(10, d);
        i = i + 1;
    }
    (i, value)
}

/// The largest exponent that is kept exactly: 10^30.
pub const EXPONENT_CAP: u128 = 1_000_000_000_000_000_000_000_000_000_000;

/// Reads the digits of an exponent from `from` on; its value stops at the cap.
fn scan_exponent(b: &[u8], from: usize) -> (r: (usize, u128))
    requires
        from <= b@.len(),
    ensures
        r.0 == digits_end(b@, from as int),
        from <= r.0 <= b@.len(),
        decimal_value(b@.subrange(from as int, r.0 as int)) < EXPONENT_CAP ==> r.1
            == decimal_value(b@.subrange(from as int, r.0 as int)),
        decimal_value(b@.subrange(from as int, r.0 as int)) >= EXPONENT_CAP ==> r.1 == EXPONENT_CAP,
{
    let len: usize = b.len();
    let mut i: usize = from;
    let mut x: u128 = 0;
    proof {
        assert(b@.subrange(from as int, from as int) =~= Seq::<u8>::empty());
    }
    while i < len && is_digit_byte(b[i])
        invariant
            len == b@.len(),
            from <= i <= len,
            digits_end(b@, from as int) == digits_end(b@, i as int),
            x <= EXPONENT_CAP,
            decimal_value(b@.subrange(from as int, i as int)) < EXPONENT_CAP ==> x == decimal_value(
                b@.subrange(from as int, i as int),
            ),
            decimal_value(b@.subrange(from as int, i as int)) >= EXPONENT_CAP ==> x == EXPONENT_CAP,
        decreases len - i,
    {
        let d: u128 = (b[i] - 48) as u128;
        proof {
            assert(b@.subrange(from as int, i + 1).drop_last() =~= b@.subrange(
                from as int,
                i as int,
            ));
        }
        let next: u128 = x * 10 + d;
        x = if next >= EXPONENT_CAP {
            EXPONENT_CAP
        } else {
            next
        };
        i = i + 1;
    }
    (i, x)
}

/// `x * 10^n`.
pub fn times_power_of_ten(x: Natural, n: u128) -> (r: Natural)
    ensures
        r@ == x@ * pow10(n as nat),
{
    let mut value: Natural = x;
    let mut i: u128 = 0;
    proof {
        assert(x@ * pow10(0) == x@) by (nonlinear_arith)
            requires
                pow10(0) == 1,
        ;
    }
    while i < n
        invariant
            i <= n,
            value@ == x@ * pow10(i as nat),
        decreases n - i,
    {
        proof {
            let v = x@;
            let p = pow10(i as nat);
            assert((v * p) * 10 + 0 == v * (10 * p)) by (nonlinear_arith);
        }
        value = value.mul_add_small(10, 0);
        i = i + 1;
    }
    value
}

/// The decimal number `digits * 10^exponent`, rounded.  The exponent is the
/// one whose digits denote `xv`, with its sign, less the count of fraction digits.
fn round_decimal(
    negative: bool,
    digits: Natural,
    digit_count: usize,
    frac_len: usize,
    exp_negative: bool,
    x: u128,
    Ghost(xv): Ghost<nat>,
) -> (r: Scalar)
    requires
        digits@ < pow10(digit_count as nat),
        frac_len <= digit_count,
        xv < EXPONENT_CAP ==> x == xv,
        xv >= EXPONENT_CAP ==> x == EXPONENT_CAP,
    ensures
        r == decimal_rounded(
            negative,
            Decimal {
                digits: digits@,
                exponent: (if exp_negative { -(xv as int) } else { xv as int }) - frac_len,
            },
        ),
{
    let ghost e: int = (if exp_negative { -(xv as int) } else { xv as int }) - frac_len;
    let ghost d: nat = digits@;
    let ghost unit: nat = pow2(1074);
    proof {
        lemma_pow2_pos(1074);
        lemma2_to64();
        assert(magnitude(0) == 0) by (nonlinear_arith)
            requires
                magnitude(0) == 0 * pow2(0),
        ;
        assert(magnitude(1) == 1) by (nonlinear_arith)
            requires
                magnitude(1) == 1 * pow2(0),
                pow2(0) == 1,
        ;
    }
    if digits.is_zero() {
        proof {
            let den: nat = if e >= 0 { 1 } else { pow10((-e) as nat) };
            if e < 0 {
                lemma_pow10_dominates((-e) as nat);
            }
            lemma_rounds_exact(0, den);
            assert(magnitude(0) * den == 0) by (nonlinear_arith)
                requires
                    magnitude(0) == 0,
            ;
            if e >= 0 {
                assert(d * pow10(e as nat) * unit == 0) by (nonlinear_arith)
                    requires
                        d == 0,
                ;
            } else {
                assert(d * unit == 0) by (nonlinear_arith)
                    requires
                        d == 0,
                ;
            }
        }
        return Scalar::from_parts(negative, 0);
    }
    let f: u128 = frac_len as u128;
    if !exp_negative && x >= f {
        let up: u128 = x - f;
        if up >= 1024 {
            proof {
                let p = pow10(e as nat);
                lemma_pow10_dominates(e as nat);
                lemma_pow2_monotone(1024, e as nat);
                lemma_pow2_adds(1024, 1074);
                lemma_pow2_adds(52, 2046);
                lemma2_to64_rest();
                assert(magnitude(INFINITY_BITS as nat) == 0x10_0000_0000_0000 * pow2(2046));
                assert(d * p * unit >= pow2(1024) * unit) by (nonlinear_arith)
                    requires
                        d >= 1,
                        p >= pow2(1024),
                        unit > 0,
                ;
                assert(magnitude(INFINITY_BITS as nat) * 1 == pow2(2098));
                lemma_rounds_saturated(d * p * unit, 1);
                lemma_round_pattern(d * p * unit, 1, INFINITY_BITS as nat);
            }
            return Scalar::from_parts(negative, INFINITY_BITS);
        }
        let num = times_power_of_ten(digits, up).shl(1074);
        let den = Natural::from_u64(1);
        return Scalar::round_signed(negative, &num, &den);
    }
    let n: u128 = if exp_negative {
        x + f
    } else {
        f - x
    };
    let ghost nt: nat = (-e) as nat;
    if n >= digit_count as u128 + 1100 {
        proof {
            let count = digit_count as nat;
            let rest = (nt - count) as nat;
            lemma_pow10_adds(count, rest);
            lemma_pow10_dominates(rest);
            lemma_pow2_monotone(1075, rest);
            lemma_pow2_adds(1, 1074);
            let a = pow10(count);
            let b = pow10(rest);
            assert(2 * (d * unit) < a * b) by (nonlinear_arith)
                requires
                    d < a,
                    b >= 2 * unit,
                    unit > 0,
            ;
            let den = pow10(nt);
            assert(magnitude(0) * den == 0) by (nonlinear_arith)
                requires
                    magnitude(0) == 0,
            ;
            assert(magnitude(1) * den == den) by (nonlinear_arith)
                requires
                    magnitude(1) == 1,
            ;
            lemma_rounds_between(d * unit, den, 0, 0);
            lemma_round_pattern(d * unit, den, 0);
        }
        return Scalar::from_parts(negative, 0);
    }
    let num = digits.shl(1074);
    let den = times_power_of_ten(Natural::from_u64(1), n);
    proof {
        lemma_pow10_dominates(n as nat);
        assert(1 * pow10(n as nat) == pow10(n as nat));
        if e == 0 {
            assert(d * pow10(0) * unit == d * unit) by (nonlinear_arith)
                requires
                    pow10(0) == 1,
            ;
        }
    }
    Scalar::round_signed(negative, &num, &den)
}

fn is_inf(b: &[u8], start: usize) -> (r: bool)
    requires
        start <= b@.len(),
    ensures
        r == inf_at(b@, start as int),
{
    b.len() - start == 3 && lower_byte(b[start]) == 105 && lower_byte(b[start + 1]) == 110
        && lower_byte(b[start + 2]) == 102
}

fn is_infinity(b: &[u8], start: usize) -> (r: bool)
    requires
        start <= b@.len(),
    ensures
        r == infinity_at(b@, start as int),
{
    b.len() - start == 8 && lower_byte(b[start]) == 105 && lower_byte(b[start + 1]) == 110
        && lower_byte(b[start + 2]) == 102 && lower_byte(b[start + 3]) == 105 && lower_byte(
        b[start + 4],
    ) == 110 && lower_byte(b[start + 5]) == 105 && lower_byte(b[start + 6]) == 116 && lower_byte(
        b[start + 7],
    ) == 121
}

fn is_nan(b: &[u8], start: usize) -> (r: bool)
    requires
        start <= b@.len(),
    ensures
        r == nan_at(b@, start as int),
{
    b.len() - start == 3 && lower_byte(b[start]) == 110 && lower_byte(b[start + 1]) == 97
        && lower_byte(b[start + 2]) == 110
}

/// The scalar that the bytes denote, if they are a literal.
pub fn parse_bytes(b: &[u8]) -> (r: Option<Scalar>)
    ensures
        r == literal_spec(b@),
{
    let len: usize = b.len();
    let signed: bool = len > 0 && (b[0] == 43 || b[0] == 45);
    let negative: bool = signed && b[0] == 45;
    let start: usize = if signed {
        1
    } else {
        0
    };
    if is_inf(b, start) || is_infinity(b, start) {
        return Some(Scalar::from_parts(negative, INFINITY_BITS));
    }
    if is_nan(b, start) {
        return Some(Scalar { bits: NAN_BITS });
    }
    proof {
        assert(decimal_value(Seq::<u8>::empty()) == 0);
    }
    let (int_end, whole) = scan_digits(b, start, Natural::from_u64(0), Ghost(Seq::<u8>::empty()));
    let has_point: bool = int_end < len && b[int_end] == 46;
    let frac_start: usize = if has_point {
        int_end + 1
    } else {
        int_end
    };
    let ghost int_digits = b@.subrange(start as int, int_end as int);
    proof {
        assert(Seq::<u8>::empty() + int_digits =~= int_digits);
    }
    let (frac_end, digits) = scan_digits(b, frac_start, whole, Ghost(int_digits));
    let ghost all_digits = int_digits + b@.subrange(frac_start as int, frac_end as int);
    let frac_len: usize = frac_end - frac_start;
    let digit_count: usize = (int_end - start) + frac_len;
    if digit_count == 0 {
        return None;
    }
    proof {
        lemma_decimal_bound(all_digits);
    }
    if frac_end == len {
        return Some(round_decimal(negative, digits, digit_count, frac_len, false, 0, Ghost(0)));
    }
    if lower_byte(b[frac_end]) != 101 {
        return None;
    }
    let sign_at: usize = frac_end + 1;
    let exp_signed: bool = sign_at < len && (b[sign_at] == 43 || b[sign_at] == 45);
    let exp_negative: bool = exp_signed && b[sign_at] == 45;
    let exp_start: usize = if exp_signed {
        sign_at + 1
    } else {
        sign_at
    };
    let (exp_end, x) = scan_exponent(b, exp_start);
    if exp_end == exp_start || exp_end != len {
        return None;
    }
    Some(
        round_decimal(
            negative,
            digits,
            digit_count,
            frac_len,
            exp_negative,
            x,
            Ghost(decimal_value(b@.subrange(exp_start as int, exp_end as int))),
        ),
    )
}

/// The scalar that the text denotes, if it is a literal.
pub fn parse_literal(text: &str) -> (r: Option<Scalar>)
    ensures
        r == literal_spec(text.spec_bytes()),
{
    parse_bytes(text.as_bytes())
}

} // verus!
