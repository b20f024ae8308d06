//! Randomness for the generator: a seedable generator from the rand crate
//! behind trusted wrappers. Nothing beyond the sample's range is assumed of
//! any outcome; every caller is verified for every value that can come back.

use vstd::prelude::*;

verus! {

/// Declares rand's StdRng so the generator can carry one; the value is
/// opaque here, and nothing is assumed of it.
#[verifier::external_type_specification]
#[verifier::external_body]
pub struct ExStdRng(rand::rngs::StdRng);

/// Relies on rand's Rng::gen_range on the half-open range `lo..hi`: the
/// sample lies in that range. gen_range panics on an empty range, so one is
/// excluded here.
#[verifier::external_body]
pub(crate) fn rng_range(rng: &mut rand::rngs::StdRng, lo: i32, hi: i32) -> (r: i32)
    requires
        lo < hi,
    ensures
        lo <= r < hi,
{
    rand::Rng::gen_range(rng, lo..hi)
}

/// Relies on rand's Rng::gen with the Standard distribution on bool: a coin
/// toss. Either outcome may come back; callers handle both.
#[verifier::external_body]
pub(crate) fn rng_coin(rng: &mut rand::rngs::StdRng) -> (b: bool) {
    rand::Rng::gen::<bool>(rng)
}

} // verus!
