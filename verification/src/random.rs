//! Randomness.
use vstd::prelude::*;

verus! {

/// Calls `rand::random`: any number may come back.
#[verifier::external_body]
pub(crate) fn random_u64() -> (r: u64) {
    rand::random::<u64>()
}

/// Draws `n` random numbers.
pub(crate) fn random_u64s(n: usize) -> (r: Vec<u64>)
    ensures
        r@.len() == n,
{
    let mut r: Vec<u64> = Vec::new();
    while r.len() < n
        invariant
            r@.len() <= n,
        decreases n - r@.len(),
    {
        r.push(random_u64());
    }
    r
}

} // verus!
