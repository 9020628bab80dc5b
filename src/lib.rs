//! Building blocks for computing π with the Chudnovsky series by binary
//! splitting: a prime-factor sieve, integers held as prime factorisations,
//! and the bookkeeping of the recursion.
use vstd::prelude::*;

pub mod bsplit;
pub mod divisors;
pub mod factors;
pub mod format;
pub mod sieve;

verus! {

} // verus!
