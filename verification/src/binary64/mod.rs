//! IEEE-754 binary64 arithmetic on bit patterns.
//!
//! A value is a `u64`: one sign bit, eleven bits of biased exponent and
//! fifty-two bits of fraction. The spec functions of these modules say what
//! real number a pattern stands for and what the correctly rounded result of
//! an operation is (round to nearest, ties to even); the executable functions
//! compute exactly that with integer arithmetic.
pub mod arith;
pub mod format;
pub mod laws;
pub mod rounding;
