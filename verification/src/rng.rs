//! An explicit random-number handle, threaded through initialization,
//! mutation and trial sampling so that runs can be reproduced by seeding.

use vstd::prelude::*;

verus! {

/// The standard generator of the `rand` crate, used as the engine's
/// explicit random-number handle.
#[verifier::external_type_specification]
#[verifier::external_body]
pub struct ExStdRng(rand::rngs::StdRng);

/// Relies on `rand::Rng::gen_range` over `0..bound`: it panics only on an
/// empty range and returns a value drawn from the range, hence below
/// `bound`. Nothing more is assumed of the draw.
#[verifier::external_body]
pub(crate) fn rng_below(rng: &mut rand::rngs::StdRng, bound: u64) -> (r: u64)
    requires
        bound > 0,
    ensures
        r < bound,
{
    rand::Rng::gen_range(rng, 0..bound)
}

/// A draw from the half-open range `lo..hi`.
pub fn rng_range(rng: &mut rand::rngs::StdRng, lo: u64, hi: u64) -> (r: u64)
    requires
        lo < hi,
    ensures
        lo <= r < hi,
{
    let d = rng_below(rng, hi - lo);
    lo + d
}

/// A fair coin.
pub fn rng_coin(rng: &mut rand::rngs::StdRng) -> bool {
    rng_below(rng, 2) == 1
}

} // verus!
