//! The random source.
//!
//! Every function that needs randomness takes the generator as an argument,
//! so a caller that seeds it gets a reproducible run. Nothing is known of a
//! draw but the range it falls in.
use rand::rngs::StdRng;
use rand::seq::SliceRandom;
use rand::Rng;
use vstd::prelude::*;


verus! {

#[verifier::external_type_specification]
#[verifier::external_body]
pub struct ExStdRng(StdRng);

/// Draws a number that is at least zero and below `bound`.
///
/// Calls `rand::Rng::gen_range` on the range `0..bound`, which is not empty
/// because the bound is positive. The contract claims only what `gen_range`
/// documents of an exclusive range: the value lies in it.
#[verifier::external_body]
pub(crate) fn random_below(rng: &mut StdRng, bound: i64) -> (drawn: i64)
    requires
        bound > 0,
    ensures
        0 <= drawn < bound,
{
    rng.gen_range(0..bound)
}

/// Picks one element of a vector.
///
/// Calls `rand::seq::SliceRandom::choose`, which returns `None` exactly when
/// the slice is empty and otherwise a reference to one of its elements. The
/// contract claims that and nothing of which element comes.
#[verifier::external_body]
pub(crate) fn choose_one<'a, T>(items: &'a Vec<T>, rng: &mut StdRng) -> (chosen: Option<&'a T>)
    ensures
        items.len() == 0 ==> chosen is None,
        items.len() > 0 ==> chosen is Some && items@.contains(*chosen.unwrap()),
{
    items.choose(rng)
}

} // verus!
