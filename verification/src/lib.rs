//! Polynomial interpolation over IEEE-754 binary64 values.
//!
//! Every real number handled by this crate is an IEEE-754 binary64 value given
//! by its 64-bit pattern. The arithmetic on such patterns is carried out, and
//! specified, in [`binary64`]; [`poly`] builds dense coefficient vectors on top
//! of it, and [`polynomial`] holds the Lagrange and Newton constructions.
pub mod binary64;
pub mod poly;
pub mod polynomial;
pub mod utils;
