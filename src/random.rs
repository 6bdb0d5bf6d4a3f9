//! Draws from the seeded generator that every generator step shares.
use vstd::prelude::*;

verus! {

#[verifier::external_type_specification]
#[verifier::external_body]
pub struct ExRng(fastrand::Rng);

/// Relies on `fastrand::Rng::usize`: a value of the range `0..n`, which
/// panics only when the range is empty.
#[verifier::external_body]
pub(crate) fn rand_below(rng: &mut fastrand::Rng, n: usize) -> (r: usize)
    requires
        n > 0,
    ensures
        r < n,
{
    rng.usize(0..n)
}

/// Relies on `fastrand::Rng::i32`: a value of the range `lo..=hi`, which
/// panics only when the range is empty.
#[verifier::external_body]
pub(crate) fn rand_i32_between(rng: &mut fastrand::Rng, lo: i32, hi: i32) -> (r: i32)
    requires
        lo <= hi,
    ensures
        lo <= r <= hi,
{
    rng.i32(lo..=hi)
}

} // verus!
