//! What holds of evaluation as a whole.

use crate::binary64::{
    lemma_floor_pattern, lemma_magnitude_step, lemma_rounding_exists, lemma_rounds_exact,
    lemma_rounds_scaled, magnitude, round_pattern, scale, significand, INFINITY_BITS,
};
use crate::expr::{EvalError, Expr};
use crate::interpret::{eval_args_spec, eval_spec, operator_spec, Operator, ONE_BITS};
use crate::literal::{lemma_pow2_monotone, literal_spec};
use crate::scalar::{
    abs, difference_spec, from_int_spec, pack, product_spec, sum_spec, Scalar,
};
use vstd::arithmetic::power2::{lemma2_to64, lemma2_to64_rest, lemma_pow2_adds, lemma_pow2_pos, pow2};
use vstd::prelude::*;
use vstd::utf8::encode_utf8;

verus! {

/// A whole number of at most 2^53 is the magnitude of a finite pattern, and
/// rounds to that pattern.
pub proof fn lemma_small_integer_exact(n: nat)
    requires
        n <= 0x20_0000_0000_0000,
    ensures
        round_pattern(n * pow2(1074), 1) < INFINITY_BITS,
        magnitude(round_pattern(n * pow2(1074), 1)) == n * pow2(1074),
{
    let unit = pow2(1074);
    let x = n * unit;
    lemma2_to64();
    lemma2_to64_rest();
    lemma_pow2_pos(1074);
    lemma_pow2_adds(52, 2046);
    lemma_pow2_adds(53, 1074);
    lemma_pow2_monotone(1127, 2098);
    assert(magnitude(INFINITY_BITS as nat) == 0x10_0000_0000_0000 * pow2(2046));
    lemma_pow2_pos(1127);
    assert(x <= pow2(1127)) by (nonlinear_arith)
        requires
            x == n * unit,
            n <= 0x20_0000_0000_0000,
            pow2(1127) == 0x20_0000_0000_0000 * unit,
    ;
    lemma_pow2_adds(1, 1127);
    lemma_pow2_monotone(1128, 2098);
    assert(magnitude(0) == 0) by (nonlinear_arith)
        requires
            magnitude(0) == 0 * pow2(scale(0)),
    ;
    let lo = lemma_floor_pattern(x, 0);
    let k = scale(lo);
    let p = pow2(k);
    let s = significand(lo);
    lemma_pow2_pos(k);
    lemma_magnitude_step(lo);
    assert((s + 1) * p == s * p + p) by (nonlinear_arith);
    if k <= 1074 {
        let c = pow2((1074 - k) as nat);
        lemma_pow2_adds((1074 - k) as nat, k);
        assert(x == (n * c) * p) by (nonlinear_arith)
            requires
                x == n * unit,
                unit == c * p,
        ;
        let q = n * c;
        assert(q == s) by (nonlinear_arith)
            requires
                s * p <= q * p,
                q * p < (s + 1) * p,
                p > 0,
        ;
    } else {
        lemma_pow2_monotone(1075, k);
        lemma_pow2_adds(1, 1074);
        assert(s >= 0x10_0000_0000_0000);
        assert(s * p >= 0x20_0000_0000_0000 * unit) by (nonlinear_arith)
            requires
                s >= 0x10_0000_0000_0000,
                p >= 2 * unit,
        ;
        assert(n * unit <= 0x20_0000_0000_0000 * unit) by (nonlinear_arith)
            requires
                n <= 0x20_0000_0000_0000,
        ;
    }
    assert(magnitude(lo) == x);
    lemma_rounds_exact(lo, 1);
    assert(magnitude(lo) * 1 == x);
}

/// The scalar of an integer of at most 2^53 in size is finite and is that integer.
pub proof fn lemma_from_int_exact(i: int)
    requires
        -0x20_0000_0000_0000 <= i <= 0x20_0000_0000_0000,
    ensures
        from_int_spec(i).finite(),
        from_int_spec(i).negative() == (i < 0),
        from_int_spec(i).magnitude() == abs(i) * pow2(1074),
        from_int_spec(i).units() == i * pow2(1074),
{
    lemma_small_integer_exact(abs(i));
    let unit = pow2(1074);
    let n = abs(i);
    assert((-(n as int)) * unit == -(n * unit)) by (nonlinear_arith);
}

/// An integer literal evaluates to its own value: no rounding takes place.
pub proof fn lemma_integer_literal(i: i32)
    ensures
        eval_spec(Expr::Int(i)) == Ok::<Scalar, EvalError>(from_int_spec(i as int)),
        from_int_spec(i as int).finite(),
        from_int_spec(i as int).units() == i * pow2(1074),
{
    lemma_from_int_exact(i as int);
}

/// A real literal evaluates to the scalar that its text denotes, and fails
/// with its text where the text is no literal.
pub proof fn lemma_real_literal(text: String)
    ensures
        eval_spec(Expr::Real(text)) == match literal_spec(encode_utf8(text@)) {
            Some(v) => Ok::<Scalar, EvalError>(v),
            None => Err(EvalError::MalformedLiteral(text)),
        },
{
}

/// What is neither an application nor a number has no value.
pub proof fn lemma_unsupported_kinds(e: Expr)
    requires
        e is Var || e is Str,
    ensures
        eval_spec(e) == Err::<Scalar, EvalError>(EvalError::UnsupportedNodeKind),
{
}

/// An application of two arguments that have values is the operator applied
/// to those values; an unknown name is an error.
pub proof fn lemma_binary_application(name: String, args: Vec<Expr>, x: Scalar, y: Scalar)
    requires
        args@.len() == 2,
        eval_spec(args@[0]) == Ok::<Scalar, EvalError>(x),
        eval_spec(args@[1]) == Ok::<Scalar, EvalError>(y),
    ensures
        eval_args_spec(args@) == Ok::<Seq<Scalar>, EvalError>(seq![x, y]),
        eval_spec(Expr::FnApp(name, args)) == match operator_spec(name@) {
            Some(op) => Ok::<Scalar, EvalError>(op.apply_spec(seq![x, y])),
            None => Err(EvalError::UnsupportedOperator(name)),
        },
{
    let one = args@.drop_last();
    let none = one.drop_last();
    assert(none.len() == 0);
    assert(eval_args_spec(none) == Ok::<Seq<Scalar>, EvalError>(Seq::empty()));
    assert(one.last() == args@[0]);
    assert(Seq::<Scalar>::empty().push(x) =~= seq![x]);
    assert(eval_args_spec(one) == Ok::<Seq<Scalar>, EvalError>(seq![x]));
    assert(args@.last() == args@[1]);
    assert(seq![x].push(y) =~= seq![x, y]);
}

/// The sum of two integers of at most 2^52 in size is their sum as integers, exactly.
pub proof fn lemma_integer_sum(a: int, b: int)
    requires
        -0x10_0000_0000_0000 <= a <= 0x10_0000_0000_0000,
        -0x10_0000_0000_0000 <= b <= 0x10_0000_0000_0000,
    ensures
        sum_spec(from_int_spec(a), from_int_spec(b)) == from_int_spec(a + b),
        from_int_spec(a + b).units() == (a + b) * pow2(1074),
{
    let unit = pow2(1074);
    lemma_from_int_exact(a);
    lemma_from_int_exact(b);
    lemma_from_int_exact(a + b);
    lemma_pow2_pos(1074);
    assert(a * unit + b * unit == (a + b) * unit) by (nonlinear_arith);
    let s = (a + b) * unit;
    assert(abs(s) == abs(a + b) * unit && (s < 0) == (a + b < 0) && (s == 0) == (a + b == 0))
        by (nonlinear_arith)
        requires
            s == (a + b) * unit,
            unit > 0,
    ;
    if a + b == 0 {
        lemma_zero_rounds_to_zero();
    }
}

/// The difference of two integers of at most 2^52 in size is their
/// difference as integers, exactly.
pub proof fn lemma_integer_difference(a: int, b: int)
    requires
        -0x10_0000_0000_0000 <= a <= 0x10_0000_0000_0000,
        -0x10_0000_0000_0000 <= b <= 0x10_0000_0000_0000,
    ensures
        difference_spec(from_int_spec(a), from_int_spec(b)) == from_int_spec(a - b),
        from_int_spec(a - b).units() == (a - b) * pow2(1074),
{
    let unit = pow2(1074);
    lemma_from_int_exact(a);
    lemma_from_int_exact(b);
    lemma_from_int_exact(a - b);
    lemma_pow2_pos(1074);
    let y = from_int_spec(b);
    let flipped = pack(!y.negative(), y.pattern());
    assert(flipped.pattern() == y.pattern());
    assert(flipped.units() == -(b * unit));
    assert(a * unit - b * unit == (a - b) * unit) by (nonlinear_arith);
    let s = (a - b) * unit;
    assert(abs(s) == abs(a - b) * unit && (s < 0) == (a - b < 0) && (s == 0) == (a - b == 0))
        by (nonlinear_arith)
        requires
            s == (a - b) * unit,
            unit > 0,
    ;
    if a - b == 0 {
        lemma_zero_rounds_to_zero();
    }
}

/// The product of two integers of at most 2^53 in size is the scalar nearest
/// to their product as integers; a product of zero is a zero, whose sign is
/// that of the factors taken together.
pub proof fn lemma_integer_product(a: int, b: int)
    requires
        -0x20_0000_0000_0000 <= a <= 0x20_0000_0000_0000,
        -0x20_0000_0000_0000 <= b <= 0x20_0000_0000_0000,
    ensures
        a * b != 0 ==> product_spec(from_int_spec(a), from_int_spec(b)) == from_int_spec(a * b),
        a * b == 0 ==> product_spec(from_int_spec(a), from_int_spec(b)) == pack(
            (a < 0) != (b < 0),
            0,
        ),
{
    let unit = pow2(1074);
    lemma_from_int_exact(a);
    lemma_from_int_exact(b);
    lemma_pow2_pos(1074);
    let na = abs(a);
    let nb = abs(b);
    assert((na * unit) * (nb * unit) == ((na * nb) * unit) * unit) by (nonlinear_arith);
    lemma_abs_product(a, b);
    let num = (na * nb) * unit;
    lemma_rounding_exists(num, 1);
    lemma_rounds_scaled(num, 1, unit, round_pattern(num, 1));
    assert(1 * unit == unit);
    if a * b == 0 {
        assert(num == 0) by (nonlinear_arith)
            requires
                num == (na * nb) * unit,
                na * nb == 0,
        ;
        lemma_zero_rounds_to_zero();
    }
}

/// The scalar that `sassy` adds is 1.
pub proof fn lemma_one()
    ensures
        (Scalar { bits: ONE_BITS }) == from_int_spec(1),
{
    lemma2_to64();
    lemma2_to64_rest();
    lemma_pow2_adds(52, 1022);
    assert(magnitude(ONE_BITS as nat) == 0x10_0000_0000_0000 * pow2(1022));
    lemma_rounds_exact(ONE_BITS as nat, 1);
    assert(magnitude(ONE_BITS as nat) * 1 == 1 * pow2(1074));
}

/// `sassy` of two integers whose product is at most 2^52 - 1 in size is
/// that product plus one, exactly.
pub proof fn lemma_sassy_of_integers(a: int, b: int)
    requires
        -0x20_0000_0000_0000 <= a <= 0x20_0000_0000_0000,
        -0x20_0000_0000_0000 <= b <= 0x20_0000_0000_0000,
        -0x10_0000_0000_0000 < a * b < 0x10_0000_0000_0000,
    ensures
        Operator::Sassy.apply_spec(seq![from_int_spec(a), from_int_spec(b)]) == from_int_spec(
            a * b + 1,
        ),
        from_int_spec(a * b + 1).units() == (a * b + 1) * pow2(1074),
{
    lemma_integer_product(a, b);
    lemma_one();
    lemma_integer_sum(a * b, 1);
    if a * b == 0 {
        let unit = pow2(1074);
        lemma_pow2_pos(1074);
        lemma_from_int_exact(1);
        let z = pack((a < 0) != (b < 0), 0);
        assert(magnitude(0) == 0) by (nonlinear_arith)
            requires
                magnitude(0) == 0 * pow2(scale(0)),
        ;
        assert(z.units() == 0);
        let one = from_int_spec(1);
        assert(one.units() == 1 * pow2(1074));
        assert(1 * pow2(1074) == unit);
        assert(one.units() == unit);
        assert(sum_spec(z, from_int_spec(1)) == from_int_spec(1));
    }
}

/// Two integer literals under `+`, `-` or `*` evaluate to the scalar of
/// their sum, difference or product as integers; the first two are exact.
pub proof fn lemma_integer_operations(name: String, args: Vec<Expr>, a: i32, b: i32)
    requires
        args@ == seq![Expr::Int(a), Expr::Int(b)],
    ensures
        name@ == seq!['+'] ==> eval_spec(Expr::FnApp(name, args)) == Ok::<Scalar, EvalError>(
            from_int_spec(a + b),
        ),
        name@ == seq!['-'] ==> eval_spec(Expr::FnApp(name, args)) == Ok::<Scalar, EvalError>(
            from_int_spec(a - b),
        ),
        name@ == seq!['*'] && a * b != 0 ==> eval_spec(Expr::FnApp(name, args)) == Ok::<
            Scalar,
            EvalError,
        >(from_int_spec(a * b)),
{
    let x = from_int_spec(a as int);
    let y = from_int_spec(b as int);
    lemma_binary_application(name, args, x, y);
    lemma_integer_sum(a as int, b as int);
    lemma_integer_difference(a as int, b as int);
    lemma_integer_product(a as int, b as int);
    assert(seq!['+'] != seq!['-'] && seq!['+'] != seq!['*'] && seq!['-'] != seq!['*']) by {
        assert(seq!['+'][0] == '+' && seq!['-'][0] == '-' && seq!['*'][0] == '*');
    }
}

/// The order of the terms does not change a sum.
pub proof fn lemma_sum_commutes(a: Scalar, b: Scalar)
    ensures
        sum_spec(a, b) == sum_spec(b, a),
{
}

/// The order of the factors does not change a product.
pub proof fn lemma_product_commutes(a: Scalar, b: Scalar)
    ensures
        product_spec(a, b) == product_spec(b, a),
{
    let x = a.magnitude();
    let y = b.magnitude();
    assert(x * y == y * x) by (nonlinear_arith);
}

/// The size of a product is the product of the sizes, and its sign that of
/// the factors taken together.
pub proof fn lemma_abs_product(a: int, b: int)
    ensures
        abs(a * b) == abs(a) * abs(b),
        (a * b < 0) == ((a < 0) != (b < 0) && a != 0 && b != 0),
        (a * b == 0) == (a == 0 || b == 0),
{
    if a >= 0 && b >= 0 {
        assert(a * b >= 0 && (a * b == 0) == (a == 0 || b == 0)) by (nonlinear_arith)
            requires
                a >= 0,
                b >= 0,
        ;
    } else if a < 0 && b < 0 {
        assert(a * b > 0 && a * b == (-a) * (-b)) by (nonlinear_arith)
            requires
                a < 0,
                b < 0,
        ;
    } else if a < 0 {
        assert(a * b <= 0 && -(a * b) == (-a) * b && (a * b == 0) == (b == 0)) by (nonlinear_arith)
            requires
                a < 0,
                b >= 0,
        ;
    } else {
        assert(a * b <= 0 && -(a * b) == a * (-b) && (a * b == 0) == (a == 0)) by (nonlinear_arith)
            requires
                a >= 0,
                b < 0,
        ;
    }
}

/// Nothing rounds to zero.
pub proof fn lemma_zero_rounds_to_zero()
    ensures
        round_pattern(0, 1) == 0,
{
    assert(magnitude(0) == 0) by (nonlinear_arith)
        requires
            magnitude(0) == 0 * pow2(scale(0)),
    ;
    lemma_rounds_exact(0, 1);
    assert(magnitude(0) * 1 == 0);
}

/// The value of an expression depends on the expression alone: evaluating
/// it again gives the same result.
pub proof fn lemma_evaluation_repeats(first: Expr, second: Expr)
    requires
        first == second,
    ensures
        eval_spec(first) == eval_spec(second),
{
}

} // verus!
