use rand::Rng;
use vstd::prelude::*;

verus! {

/// Draws one boolean that is true with probability `numerator / denominator`, from the
/// generator that `rand` keeps for the calling thread.
///
/// Trusted: the body is `rand::thread_rng().gen_ratio(numerator, denominator)`. The
/// documentation of `gen_ratio` says that it panics when the denominator is zero or the
/// numerator exceeds it, that the result is certainly `false` for a zero numerator and
/// certainly `true` when numerator and denominator are equal. Nothing else is claimed
/// of the outcome.
#[verifier::external_body]
pub(crate) fn random_bool(numerator: u32, denominator: u32) -> (outcome: bool)
    requires
        0 < denominator,
        numerator <= denominator,
    ensures
        numerator == 0 ==> !outcome,
        numerator == denominator ==> outcome,
{
    rand::thread_rng().gen_ratio(numerator, denominator)
}

} // verus!
