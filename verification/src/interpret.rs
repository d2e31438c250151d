//! Evaluation of expressions to scalars.

use crate::expr::{EvalError, Expr};
use crate::literal::{literal_spec, parse_literal};
use crate::scalar::{
    difference_spec, from_int_spec, product_spec, quotient_spec, sum_spec, Scalar,
};
use vstd::prelude::*;
use vstd::string::StrSliceExecFns;
use vstd::utf8::encode_utf8;

verus! {

/// The pattern of 1.0.
pub const ONE_BITS: u64 = 0x3ff0_0000_0000_0000;

/// The operators that evaluation knows.
#[derive(Clone, Copy, Debug, PartialEq, Eq, Structural)]
pub enum Operator {
    /// `+`: the sum of two arguments.
    Add,
    /// `-`: the first argument less the second.
    Sub,
    /// `*`: the product of two arguments.
    Mul,
    /// `/`: the first argument divided by the second.
    Div,
    /// `sassy`: the product of two arguments, plus one.
    Sassy,
}

/// The operator with the given name.
pub open spec fn operator_spec(name: Seq<char>) -> Option<Operator> {
    if name == seq!['+'] {
        Some(Operator::Add)
    } else if name == seq!['-'] {
        Some(Operator::Sub)
    } else if name == seq!['*'] {
        Some(Operator::Mul)
    } else if name == seq!['/'] {
        Some(Operator::Div)
    } else if name == seq!['s', 'a', 's', 's', 'y'] {
        Some(Operator::Sassy)
    } else {
        None
    }
}

impl Operator {
    /// The number of arguments that the operator takes.
    pub open spec fn arity_spec(self) -> nat {
        2
    }

    /// What the operator makes of its arguments.
    pub open spec fn apply_spec(self, args: Seq<Scalar>) -> Scalar {
        match self {
            Operator::Add => sum_spec(args[0], args[1]),
            Operator::Sub => difference_spec(args[0], args[1]),
            Operator::Mul => product_spec(args[0], args[1]),
            Operator::Div => quotient_spec(args[0], args[1]),
            Operator::Sassy => sum_spec(product_spec(args[0], args[1]), Scalar { bits: ONE_BITS }),
        }
    }

    /// The number of arguments that the operator takes.
    pub fn arity(self) -> (n: usize)
        ensures
            n == self.arity_spec(),
    {
        2
    }

    /// Applies the operator to as many arguments as it takes.
    pub fn apply(self, args: &Vec<Scalar>) -> (r: Scalar)
        requires
            args@.len() == self.arity_spec(),
        ensures
            r == self.apply_spec(args@),
    {
        let a: Scalar = args[0];
        let b: Scalar = args[1];
        match self {
            Operator::Add => a.plus(b),
            Operator::Sub => a.minus(b),
            Operator::Mul => a.times(b),
            Operator::Div => a.divided_by(b),
            Operator::Sassy => a.times(b).plus(Scalar { bits: ONE_BITS }),
        }
    }
}

/// The operator with the given name, if there is one.
pub fn lookup_operator(name: &str) -> (r: Option<Operator>)
    ensures
        r == operator_spec(name@),
{
    let n: usize = name.unicode_len();
    if n == 1 {
        let c: char = name.get_char(0);
        if c == '+' {
            assert(name@ =~= seq!['+']);
            Some(Operator::Add)
        } else if c == '-' {
            assert(name@ =~= seq!['-']);
            Some(Operator::Sub)
        } else if c == '*' {
            assert(name@ =~= seq!['*']);
            Some(Operator::Mul)
        } else if c == '/' {
            assert(name@ =~= seq!['/']);
            Some(Operator::Div)
        } else {
            None
        }
    } else if n == 5 {
        if name.get_char(0) == 's' && name.get_char(1) == 'a' && name.get_char(2) == 's'
            && name.get_char(3) == 's' && name.get_char(4) == 'y' {
            assert(name@ =~= seq!['s', 'a', 's', 's', 'y']);
            Some(Operator::Sassy)
        } else {
            None
        }
    } else {
        None
    }
}

/// What the operator called `name` makes of the values `args`.
pub open spec fn apply_spec(name: String, args: Seq<Scalar>) -> Result<Scalar, EvalError> {
    match operator_spec(name@) {
        None => Err(EvalError::UnsupportedOperator(name)),
        Some(op) => if args.len() != op.arity_spec() {
            Err(
                EvalError::ArityMismatch {
                    operator: name,
                    expected: op.arity_spec() as usize,
                    actual: args.len() as usize,
                },
            )
        } else {
            Ok(op.apply_spec(args))
        },
    }
}

/// Applies the operator called `name` to the values `args`.
pub fn apply_operator(name: &String, args: &Vec<Scalar>) -> (r: Result<Scalar, EvalError>)
    ensures
        r == apply_spec(*name, args@),
{
    match lookup_operator(name.as_str()) {
        None => Err(EvalError::UnsupportedOperator(name.clone())),
        Some(op) => {
            if args.len() != op.arity() {
                Err(
                    EvalError::ArityMismatch {
                        operator: name.clone(),
                        expected: op.arity(),
                        actual: args.len(),
                    },
                )
            } else {
                Ok(op.apply(args))
            }
        },
    }
}

/// The value of an expression, or why it has none.
pub open spec fn eval_spec(e: Expr) -> Result<Scalar, EvalError>
    decreases e,
{
    match e {
        Expr::FnApp(name, args) => match eval_args_spec(args@) {
            Err(err) => Err(err),
            Ok(values) => apply_spec(name, values),
        },
        Expr::Int(i) => Ok(from_int_spec(i as int)),
        Expr::Real(text) => match literal_spec(encode_utf8(text@)) {
            Some(v) => Ok(v),
            None => Err(EvalError::MalformedLiteral(text)),
        },
        _ => Err(EvalError::UnsupportedNodeKind),
    }
}

/// The values of the expressions in order, or the error of the first that has none.
pub open spec fn eval_args_spec(args: Seq<Expr>) -> Result<Seq<Scalar>, EvalError>
    decreases args,
{
    if args.len() == 0 {
        Ok(Seq::empty())
    } else {
        match eval_args_spec(args.drop_last()) {
            Err(err) => Err(err),
            Ok(values) => match eval_spec(args.last()) {
                Err(err) => Err(err),
                Ok(v) => Ok(values.push(v)),
            },
        }
    }
}

/// The first error among the expressions is still the first when more follow.
pub proof fn lemma_first_error_stays(args: Seq<Expr>, n: int)
    requires
        0 <= n <= args.len(),
        eval_args_spec(args.take(n)) is Err,
    ensures
        eval_args_spec(args) == eval_args_spec(args.take(n)),
    decreases args.len(),
{
    if n < args.len() {
        assert(args.drop_last().take(n) =~= args.take(n));
        lemma_first_error_stays(args.drop_last(), n);
    } else {
        assert(args.take(n) =~= args);
    }
}

/// Evaluates the expression.
pub fn eval_scal(e: &Expr) -> (r: Result<Scalar, EvalError>)
    ensures
        r == eval_spec(*e),
    decreases e,
{
    match e {
        Expr::FnApp(name, args) => {
            let count: usize = args.len();
            let mut values: Vec<Scalar> = Vec::new();
            let mut i: usize = 0;
            proof {
                assert(args@.take(0) =~= Seq::<Expr>::empty());
            }
            while i < count
                invariant
                    *e == Expr::FnApp(*name, *args),
                    count == args@.len(),
                    i <= count,
                    eval_args_spec(args@.take(i as int)) == Ok::<Seq<Scalar>, EvalError>(values@),
                decreases count - i,
            {
                proof {
                    assert(args@.take(i + 1).drop_last() =~= args@.take(i as int));
                    assert(args@.take(i + 1).last() == args@[i as int]);
                }
                match eval_scal(&args[i]) {
                    Ok(v) => {
                        values.push(v);
                    },
                    Err(err) => {
                        proof {
                            lemma_first_error_stays(args@, i + 1);
                        }
                        return Err(err);
                    },
                }
                i = i + 1;
            }
            proof {
                assert(args@.take(count as int) =~= args@);
            }
            apply_operator(name, &values)
        },
        Expr::Int(i) => Ok(Scalar::from_i32(*i)),
        Expr::Real(text) => match parse_literal(text.as_str()) {
            Some(v) => Ok(v),
            None => Err(EvalError::MalformedLiteral(text.clone())),
        },
        _ => Err(EvalError::UnsupportedNodeKind),
    }
}

} // verus!
