//! Trusted view of the random source that drives the aggregation walk.
//!
//! The engine draws uniform integers from a `rand::rngs::StdRng`; all the
//! verified code assumes of a draw is that it lies in the requested range.

use vstd::prelude::*;

verus! {

#[verifier::external_type_specification]
#[verifier::external_body]
pub struct ExStdRng(rand::rngs::StdRng);

/// Relies on `rand::Rng::gen_range` over an inclusive range: it panics on
/// an empty range and otherwise samples a value within the range; nothing
/// else is assumed of the value.
#[verifier::external_body]
pub(crate) fn rand_range_i64(rng: &mut rand::rngs::StdRng, lo: i64, hi: i64) -> (r: i64)
    requires
        lo <= hi,
    ensures
        lo <= r <= hi,
{
    rand::Rng::gen_range(rng, lo..=hi)
}

} // verus!
