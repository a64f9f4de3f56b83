use vstd::prelude::*;

verus! {

/// Relies on rand::Rng::gen_range over the thread-local generator rand::thread_rng:
/// the result of gen_range(0..n) lies in 0..n. Nothing is assumed about which
/// value comes back.
#[verifier::external_body]
pub(crate) fn rand_below(n: usize) -> (r: usize)
    requires
        n > 0,
    ensures
        r < n,
{
    rand::Rng::gen_range(&mut rand::thread_rng(), 0..n)
}

} // verus!
