//! A scalar arithmetic expression evaluator over IEEE-754 binary64 values.
//!
//! Binary64 values are held as their 64-bit patterns and every operation on
//! them is carried out in integer arithmetic, so that each result is proved
//! to be the correctly rounded one.

pub mod binary64;
pub mod expr;
pub mod interpret;
pub mod laws;
pub mod literal;
pub mod natural;
pub mod scalar;
