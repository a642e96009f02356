//! Secret recovery by Lagrange interpolation at zero over exact rationals.
use vstd::prelude::*;

pub mod big;
pub mod gcd;
pub mod error;
pub mod fold;
pub mod fraction;
pub mod secret;

verus! {

} // verus!
