//! Trusted boundary to the `rand` crate: the seedable generator used for
//! weight initialization.

use vstd::prelude::*;
use rand::Rng;

verus! {

#[verifier::external_type_specification]
#[verifier::external_body]
pub struct ExStdRng(rand::rngs::StdRng);

/// Relies on rand::Rng::gen_range over the inclusive range `lo..=hi`: it
/// returns a uniformly distributed value of that range and panics only when
/// the range is empty. Nothing more is assumed of the draw.
#[verifier::external_body]
pub(crate) fn gen_range_i64(rng: &mut rand::rngs::StdRng, lo: i64, hi: i64) -> (r: i64)
    requires
        lo <= hi,
    ensures
        lo <= r <= hi,
{
    rng.gen_range(lo..=hi)
}

} // verus!
