//! Randomness for the mutation engine, drawn from the process-wide
//! generator. Nothing is promised about the values beyond their range.
use vstd::prelude::*;

verus! {

/// Relies on rand::random_range over `0..n`: a uniform value below `n`;
/// the call panics on an empty range, so `n` must be positive.
#[verifier::external_body]
pub fn rand_below(n: usize) -> (r: usize)
    requires
        n >= 1,
    ensures
        r < n,
{
    rand::random_range(0..n)
}

/// Relies on rand::random: a uniform random byte.
#[verifier::external_body]
pub fn rand_byte() -> u8 {
    rand::random::<u8>()
}

} // verus!
