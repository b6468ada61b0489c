//! The crate's only use of randomness, behind trusted wrappers.

use rand::Rng;
use vstd::prelude::*;

verus! {

/// Relies on rand::thread_rng and rand::Rng::gen_range on the range
/// `0..n`: for a nonempty range it returns a value of the range and does
/// not panic. Nothing more is assumed: the draw may differ on every call.
#[verifier::external_body]
pub(crate) fn rand_below(n: usize) -> (r: usize)
    requires
        n >= 1,
    ensures
        r < n,
{
    rand::thread_rng().gen_range(0..n)
}

/// Relies on rand::random::<bool>, a coin flip from the Standard
/// distribution. Nothing is assumed about the outcome.
#[verifier::external_body]
pub(crate) fn coin_flip() -> bool {
    rand::random::<bool>()
}

} // verus!
