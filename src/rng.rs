//! Randomness drawn from the thread-local generator of `rand`.
use vstd::prelude::*;

verus! {

/// Relies on `rand::Rng::gen_range` over `0..bound` on `rand::thread_rng()`:
/// a value below `bound`; the range must not be empty.
#[verifier::external_body]
pub(crate) fn random_below(bound: u64) -> (r: u64)
    requires
        bound > 0,
    ensures
        r < bound,
{
    rand::Rng::gen_range(&mut rand::thread_rng(), 0..bound)
}

/// Relies on `rand::random::<usize>`: any `usize` may come back.
#[verifier::external_body]
pub(crate) fn random_usize() -> (r: usize) {
    rand::random::<usize>()
}

} // verus!
