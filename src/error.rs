//! Errors that secret recovery reports instead of panicking.
use vstd::prelude::*;

verus! {

#[derive(Debug, Clone, Copy, PartialEq, Eq, Structural)]
pub enum SecretError {
    /// A fraction was given a zero denominator.
    DivisionByZero,
    /// Two shares given to interpolation have the same index.
    DuplicateIndex,
    /// Fewer shares were supplied than the threshold asks for.
    InsufficientShares,
    /// A share's value holds a character that is no digit of its base.
    InvalidDigitForBase,
    /// A share's base lies outside 2 to 36.
    InvalidBase,
}

} // verus!
