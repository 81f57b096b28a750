//! The random source of the search. Every draw goes through one of the
//! functions here, which say what holds of each possible outcome.

use rand::rngs::StdRng;
use rand::seq::SliceRandom;
use rand::Rng;
use rand::SeedableRng;
use vstd::prelude::*;

verus! {

/// `rand::rngs::StdRng`, the generator behind every draw. Nothing is known of
/// its state.
#[verifier::external_type_specification]
#[verifier::external_body]
pub struct ExStdRng(StdRng);

/// `SeedableRng::seed_from_u64`: a generator whose stream is fixed by `seed`.
#[verifier::external_body]
pub(crate) fn seeded(seed: u64) -> StdRng {
    StdRng::seed_from_u64(seed)
}

/// `Rng::gen_range` on an inclusive range: some number from `low` to `high`,
/// both included. The outside function panics on an empty range.
#[verifier::external_body]
pub(crate) fn uniform_inclusive(rng: &mut StdRng, low: usize, high: usize) -> (r: usize)
    requires
        low <= high,
    ensures
        low <= r <= high,
{
    rng.gen_range(low..=high)
}

/// `Rng::gen_ratio`: a coin that shows `true` with the given odds. It always
/// does so where the odds are one, and never where they are zero. The
/// outside function panics on a zero denominator and on odds above one.
#[verifier::external_body]
pub(crate) fn coin(rng: &mut StdRng, numerator: u32, denominator: u32) -> (heads: bool)
    requires
        denominator > 0,
        numerator <= denominator,
    ensures
        numerator == denominator ==> heads,
        numerator == 0 ==> !heads,
{
    rng.gen_ratio(numerator, denominator)
}

/// `SliceRandom::choose`: one of the items, or nothing where there is none.
#[verifier::external_body]
pub(crate) fn pick_one<T: Copy>(rng: &mut StdRng, items: &Vec<T>) -> (pick: Option<T>)
    ensures
        items@.len() == 0 ==> pick is None,
        items@.len() > 0 ==> pick is Some && items@.contains(pick->Some_0),
{
    items.choose(rng).copied()
}

} // verus!
