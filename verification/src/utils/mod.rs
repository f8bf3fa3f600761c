//! Items shared by the interpolation routines.
pub mod error;
