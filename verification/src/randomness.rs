//! The draws from `rand`'s thread-local generator that the coalition models make.
use rand::Rng;
use vstd::prelude::*;

verus! {

/// Draws a seed from `rand::thread_rng()` with `Rng::gen::<u16>()`.
/// The value depends on the process's entropy, so nothing is claimed of it
/// beyond its type.
#[verifier::external_body]
pub(crate) fn random_seed() -> (r: u16) {
    rand::thread_rng().gen::<u16>()
}

/// Draws an index with `rand::thread_rng().gen_range(0, bound)`.
/// rand 0.6 documents (and its source asserts) that `gen_range(low, high)`
/// panics when `low >= high` and otherwise returns a value in `[low, high)`;
/// this contract claims exactly that: `bound > 0` is required and the
/// result lies below `bound`. Which value comes back is left open.
#[verifier::external_body]
pub(crate) fn random_index(bound: usize) -> (r: usize)
    requires
        bound > 0,
    ensures
        r < bound,
{
    rand::thread_rng().gen_range(0, bound)
}

} // verus!
