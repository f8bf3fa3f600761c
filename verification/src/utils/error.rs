//! The ways in which an interpolation can fail.
use vstd::prelude::*;

verus! {

/// Why no polynomial was built.
#[derive(Clone, Copy, Debug, PartialEq, Eq, Structural)]
pub enum InterpolationError {
    /// There are not as many ordinates as abscissas.
    UnequalArrayLengths,
    /// Two abscissas are too close to tell apart.
    DuplicateValues,
}

impl InterpolationError {
    /// A sentence that names the failure.
    pub fn message(&self) -> (s: &'static str)
        ensures
            s@ == match *self {
                InterpolationError::UnequalArrayLengths => "x and y differ in length"@,
                InterpolationError::DuplicateValues => "two values of x coincide"@,
            },
    {
        match self {
            InterpolationError::UnequalArrayLengths => "x and y differ in length",
            InterpolationError::DuplicateValues => "two values of x coincide",
        }
    }
}

} // verus!
