use rand::Rng;
use vstd::prelude::*;

verus! {

/// Draws a number with `rand::Rng::gen_range` on the generator that
/// `rand::thread_rng` hands out. This is believed, not proved: the
/// number lies from `low` up to, but not including, `high`, as the crate
/// documents for a call with `low < high`, which is asked of the caller
/// because the crate panics otherwise. Which number comes is left to
/// chance, so two draws from the same range may differ.
#[verifier::external_body]
pub(crate) fn draw_between(low: u8, high: u8) -> (drawn: u8)
    requires
        low < high,
    ensures
        low <= drawn < high,
{
    rand::thread_rng().gen_range(low, high)
}

} // verus!
