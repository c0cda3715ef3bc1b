//! The crate's single source of randomness: a bounded uniform draw.
//!
//! Every random choice the engine makes — the learner's symbol for an
//! episode, exploration draws, the opponent's moves — goes through
//! [`random_below`], so only the range of each draw is ever assumed.

use rand::Rng;
use vstd::prelude::*;

verus! {

/// Relies on `rand::thread_rng` and `rand::Rng::gen_range`: for a non-empty
/// range `0..n` the sample lies in that range. Nothing else is assumed of the
/// draw; callers must hold for every value under `n`.
#[verifier::external_body]
pub(crate) fn random_below(n: u64) -> (r: u64)
    requires
        n > 0,
    ensures
        r < n,
{
    rand::thread_rng().gen_range(0..n)
}

} // verus!
