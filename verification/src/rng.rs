//! The randomness the spawner draws, behind a trusted boundary.
use vstd::prelude::*;
use rand::Rng;

verus! {

/// Relies on rand::thread_rng and rand::Rng::gen_range over `0..n`: the
/// call returns a value of that range, and panics only when the range is
/// empty, which `n > 0` rules out.  Nothing is assumed about which value
/// comes back.
#[verifier::external_body]
pub(crate) fn random_below(n: usize) -> (r: usize)
    requires
        n > 0,
    ensures
        r < n,
{
    rand::thread_rng().gen_range(0..n)
}

} // verus!
