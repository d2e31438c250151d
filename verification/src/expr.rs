//! Expression trees and the errors that evaluating one can end in.

use vstd::prelude::*;

verus! {

/// An arithmetic expression.
#[derive(Debug, PartialEq, Eq)]
pub enum Expr {
    /// A named operator applied to arguments, in order.
    FnApp(String, Vec<Expr>),
    /// An integer literal.
    Int(i32),
    /// A real literal, kept as its text.
    Real(String),
    /// A variable; it has no value here.
    Var(String),
    /// A string literal; it has no value here.
    Str(String),
}

/// Why an expression has no value.
#[derive(Clone, Debug, PartialEq, Eq)]
pub enum EvalError {
    /// The text of a real literal is not a number.
    MalformedLiteral(String),
    /// No operator has this name.
    UnsupportedOperator(String),
    /// The expression is of a kind that has no value.
    UnsupportedNodeKind,
    /// The operator takes `expected` arguments and was given `actual`.
    ArityMismatch { operator: String, expected: usize, actual: usize },
}

} // verus!
