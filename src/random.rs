use rand::Rng;
use vstd::prelude::*;

verus! {

/// Relies on `rand::Rng::gen_ratio(1, 2)` on the thread-local generator: a fair coin.
/// Nothing is promised of any one outcome.
#[verifier::external_body]
pub(crate) fn coin() -> (r: bool) {
    rand::thread_rng().gen_ratio(1, 2)
}

/// Relies on `rand::Rng::gen_range(0..n)` on the thread-local generator: a uniform value
/// below `n`, which must not be zero (an empty range panics).
#[verifier::external_body]
pub(crate) fn column_below(n: usize) -> (r: usize)
    requires
        n > 0,
    ensures
        r < n,
{
    rand::thread_rng().gen_range(0..n)
}

} // verus!
