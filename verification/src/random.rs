//! The library's source of chance: the thread's generator of the `rand` crate.
//!
//! Nothing here is proved. Each item states what the `rand` crate documents of the call
//! it makes, and the rest of the library is verified against these statements for every
//! outcome of the draw.

use rand::rngs::ThreadRng;
use rand::seq::IteratorRandom;
use rand::Rng;
use vstd::prelude::*;

verus! {

/// `rand::rngs::ThreadRng`, a handle to the generator of the calling thread. The library
/// only hands it to the draws below.
#[verifier::external_type_specification]
#[verifier::external_body]
pub struct ExThreadRng(rand::rngs::ThreadRng);

/// `rand::thread_rng`: the handle to the calling thread's generator. Nothing is
/// claimed of the handle.
pub assume_specification[ rand::thread_rng ]() -> (rng: ThreadRng)
;

/// `Rng::gen_range` on the range `0..bound`: a number below `bound`. The call panics on
/// an empty range, which `bound > 0` rules out. Which number comes is left open.
#[verifier::external_body]
pub(crate) fn random_below(rng: &mut ThreadRng, bound: usize) -> (index: usize)
    requires
        bound > 0,
    ensures
        index < bound,
{
    rng.gen_range(0..bound)
}

/// `IteratorRandom::choose` on the range `0..count`: one of the numbers below `count`.
/// Its documentation promises `None` if and only if the iterator is empty, which is
/// where `count` is 0. Which number comes is left open.
#[verifier::external_body]
pub(crate) fn random_choice(rng: &mut ThreadRng, count: usize) -> (choice: Option<usize>)
    ensures
        choice.is_none() <==> count == 0,
        choice.is_some() ==> choice.unwrap() < count,
{
    (0..count).choose(rng)
}

/// `Rng::gen_ratio`: `true` with probability `numerator / denominator`. The call panics
/// where `denominator` is 0 or `numerator` exceeds it, which the `requires` rules out.
/// Its documentation promises `false` for a numerator of 0 and `true` for a numerator
/// equal to the denominator; the outcome is left open otherwise.
#[verifier::external_body]
pub(crate) fn random_ratio(rng: &mut ThreadRng, numerator: u32, denominator: u32) -> (outcome:
    bool)
    requires
        denominator > 0,
        numerator <= denominator,
    ensures
        numerator == 0 ==> !outcome,
        numerator == denominator ==> outcome,
{
    rng.gen_ratio(numerator, denominator)
}

} // verus!
