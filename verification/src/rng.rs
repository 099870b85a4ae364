use vstd::prelude::*;

use rand::Rng;

verus! {

/// Relies on rand's `thread_rng().gen::<u32>()`: an arbitrary 32-bit value.
/// Nothing is promised of the result; callers state what holds of every
/// outcome.
#[verifier::external_body]
pub(crate) fn random_u32() -> u32 {
    rand::thread_rng().gen()
}

/// Relies on rand's `thread_rng().gen_range(0..n)`: a value below `n`,
/// uniformly distributed.  `gen_range` panics only on an empty range, which
/// the precondition rules out.
#[verifier::external_body]
pub(crate) fn random_below(n: u64) -> (r: u64)
    requires
        n >= 1,
    ensures
        r < n,
{
    rand::thread_rng().gen_range(0..n)
}

} // verus!
