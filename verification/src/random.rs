//! The random number generator that the simulation threads through its
//! operations, and the few draws from `rand` that the verified code makes.
//! Each draw states what holds of every outcome; which outcome comes is left open.

use rand::rngs::StdRng;
use rand::seq::{IndexedRandom, IteratorRandom, SliceRandom};
use rand::RngExt;
use vstd::prelude::*;


verus! {

/// The seeded generator of `rand`; opaque to the verified code, which only
/// hands it on to the draws below.
#[verifier::external_type_specification]
#[verifier::external_body]
pub struct ExStdRng(StdRng);

/// `rng.random_range(0..upper)` (`rand::RngExt::random_range`): some number
/// below `upper`. The range must not be empty, else `rand` panics.
#[verifier::external_body]
pub fn random_below(rng: &mut StdRng, upper: usize) -> (r: usize)
    requires
        0 < upper,
    ensures
        r < upper,
{
    rng.random_range(0..upper)
}

/// `rng.random_range(0..=max)` (`rand::RngExt::random_range` on an
/// inclusive range, which is never empty): some number up to `max`.
#[verifier::external_body]
pub fn random_up_to(rng: &mut StdRng, max: usize) -> (r: usize)
    ensures
        r <= max,
{
    rng.random_range(0..=max)
}

/// `v.shuffle(rng)` (`rand::seq::SliceRandom::shuffle`): the elements of `v`
/// in some order; the source swaps elements in place, so each one stays.
#[verifier::external_body]
pub fn shuffle<T>(rng: &mut StdRng, v: &mut Vec<T>)
    ensures
        final(v)@.to_multiset() == old(v)@.to_multiset(),
{
    v.shuffle(rng)
}

/// `(0..n).choose(rng)` (`rand::seq::IteratorRandom::choose` on a range):
/// `None` exactly when `n` is zero, else some number below `n`.
#[verifier::external_body]
pub fn choose_below(rng: &mut StdRng, n: usize) -> (r: Option<usize>)
    ensures
        r is None <==> n == 0,
        r matches Some(k) ==> k < n,
{
    (0..n).choose(rng)
}

/// `(0..n).sample(rng, 2)` (`rand::seq::IteratorRandom::sample`, formerly
/// `choose_multiple`): as many as two of the numbers below `n`, each at most
/// once; the source keeps a reservoir of distinct positions of the range.
#[verifier::external_body]
pub fn sample_two_below(rng: &mut StdRng, n: usize) -> (r: Vec<usize>)
    ensures
        r@.len() == if n < 2 { n as nat } else { 2 },
        r@.no_duplicates(),
        forall|i: int| 0 <= i < r@.len() ==> #[trigger] r@[i] < n,
{
    (0..n).sample(rng, 2)
}

/// `v.choose(rng)` (`rand::seq::IndexedRandom::choose` on a slice): `None`
/// exactly when `v` is empty, else one of its elements; the source indexes
/// `v` at a number drawn below its length.
#[verifier::external_body]
pub fn choose_from(rng: &mut StdRng, v: &Vec<usize>) -> (r: Option<usize>)
    ensures
        r is None <==> v@.len() == 0,
        r matches Some(x) ==> v@.contains(x),
{
    v.choose(rng).copied()
}

/// `v.iter().copied().choose_stable(rng)`
/// (`rand::seq::IteratorRandom::choose_stable`): `None` exactly when `v` is
/// empty, else one of its elements; the source takes the first element with
/// certainty and replaces it, element by element, on coin flips.
#[verifier::external_body]
pub fn choose_stable_from(rng: &mut StdRng, v: &Vec<usize>) -> (r: Option<usize>)
    ensures
        r is None <==> v@.len() == 0,
        r matches Some(x) ==> v@.contains(x),
{
    v.iter().copied().choose_stable(rng)
}

} // verus!
