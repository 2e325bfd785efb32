//! Randomness for game generation, delegated to the `rand` crate. The engine
//! itself is deterministic; only the initial position is drawn at random.

use rand::Rng;
use vstd::prelude::*;

verus! {

/// Relies on `rand::thread_rng` and `rand::Rng::gen_range` on an inclusive,
/// non-empty range: the drawn value lies within the range (`gen_range` panics
/// only on an empty range, which `lo <= hi` rules out). Nothing more is
/// assumed of the draw.
#[verifier::external_body]
pub(crate) fn random_in_range(lo: u32, hi: u32) -> (r: u32)
    requires
        lo <= hi,
    ensures
        lo <= r <= hi,
{
    rand::thread_rng().gen_range(lo..=hi)
}

} // verus!
