//! What this library relies on from `rand` to draw a sample.
//!
//! The outcome of a draw is not determined by its arguments, so the contract
//! states only what holds of every outcome. It is trusted, not proved.

use rand::rngs::ThreadRng;
use rand::seq::SliceRandom;
use vstd::prelude::*;

verus! {

/// `rand::rngs::ThreadRng`, carried through verified code as an opaque
/// value.
#[verifier::external_type_specification]
#[verifier::external_body]
pub struct ExThreadRng(ThreadRng);

/// `sample` lists the elements of `population` at the positions `picks`,
/// and no position is picked twice.
pub open spec fn is_selection(sample: Seq<usize>, population: Seq<usize>, picks: Seq<int>) -> bool {
    &&& picks.len() == sample.len()
    &&& picks.no_duplicates()
    &&& forall|i: int|
        0 <= i < picks.len() ==> 0 <= #[trigger] picks[i] < population.len() && sample[i]
            == population[picks[i]]
}

/// `rand::thread_rng`: a handle to the random number generator of the
/// current thread. Nothing is known of the numbers it will give. The call
/// fails only where the operating system cannot seed the generator.
pub assume_specification[ rand::thread_rng ]() -> (rng: ThreadRng)
;

/// `SliceRandom::choose_multiple`, collected: `amount` elements of
/// `population` taken at distinct positions, in some order, or all of them
/// when `amount` exceeds the length of `population`.
#[verifier::external_body]
pub(crate) fn choose_multiple(population: &Vec<usize>, rng: &mut ThreadRng, amount: usize) -> (sample:
    Vec<usize>)
    ensures
        sample.len() == if amount <= population.len() {
            amount
        } else {
            population.len()
        },
        exists|picks: Seq<int>| is_selection(sample@, population@, picks),
{
    population.choose_multiple(rng, amount).cloned().collect()
}

} // verus!
