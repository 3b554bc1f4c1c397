//! Random numbers.
use vstd::prelude::*;

verus! {

/// A random 32-bit number from `rand::random`, which draws from the thread's generator. Any value
/// may come back, so nothing is stated of it; what is done with the number is stated by the
/// functions that take it as an argument.
#[verifier::external_body]
pub(crate) fn random_u32() -> (r: u32) {
    rand::random::<u32>()
}

} // verus!
