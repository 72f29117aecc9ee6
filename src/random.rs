use vstd::prelude::*;

verus! {

#[verifier::external_type_specification]
#[verifier::external_body]
pub struct ExPcg32(rand_pcg::Pcg32);

/// Relies on `rand::Rng::gen_range` over `0..bound`: the value drawn lies in
/// the half-open range, which must not be empty.
#[verifier::external_body]
pub(crate) fn uniform_below(rng: &mut rand_pcg::Pcg32, bound: u64) -> (r: u64)
    requires
        bound > 0,
    ensures
        r < bound,
{
    rand::Rng::gen_range(rng, 0..bound)
}

} // verus!
