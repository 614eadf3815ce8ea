//! The random source that bombs are drawn from.

use rand::rngs::ThreadRng;
use rand::Rng;
use vstd::prelude::*;

verus! {

/// `rand::rngs::ThreadRng`, the handle to the thread-local generator. Nothing
/// is known of its state.
#[verifier::external_type_specification]
#[verifier::external_body]
pub struct ExThreadRng(ThreadRng);

/// `rand::thread_rng` hands out the generator of the current thread. Nothing
/// is claimed of the handle it returns. The call fails only where the
/// operating system has no entropy to seed the generator with, which no
/// argument decides.
pub assume_specification[ rand::thread_rng ]() -> (rng: ThreadRng);

/// `rand::Rng::gen_ratio` on the thread-local generator: a Bernoulli trial
/// that succeeds with probability `numerator / denominator`. The call panics
/// on a zero denominator and on a ratio above one, which `requires` leaves
/// out; beyond that it fails only where the generator cannot be reseeded by
/// the operating system. Of the outcome only the two documented certainties
/// are claimed: a ratio of zero never succeeds, a ratio of one always does.
#[verifier::external_body]
pub(crate) fn gen_ratio(rng: &mut ThreadRng, numerator: u32, denominator: u32) -> (hit: bool)
    requires
        denominator > 0,
        numerator <= denominator,
    ensures
        numerator == 0 ==> !hit,
        numerator == denominator ==> hit,
{
    rng.gen_ratio(numerator, denominator)
}

/// One Bernoulli trial per cell, in index order.
pub(crate) fn draw_bombs(cells: usize, numerator: u32, denominator: u32) -> (bombs: Vec<bool>)
    requires
        denominator > 0,
        numerator <= denominator,
    ensures
        bombs@.len() == cells,
        numerator == 0 ==> forall|i: int| 0 <= i < cells ==> !bombs@[i],
        numerator == denominator ==> forall|i: int| 0 <= i < cells ==> bombs@[i],
{
    let mut rng = rand::thread_rng();
    let mut bombs: Vec<bool> = Vec::new();
    while bombs.len() < cells
        invariant
            denominator > 0,
            numerator <= denominator,
            bombs@.len() <= cells,
            numerator == 0 ==> forall|i: int| 0 <= i < bombs@.len() ==> !bombs@[i],
            numerator == denominator ==> forall|i: int| 0 <= i < bombs@.len() ==> bombs@[i],
        decreases cells - bombs@.len(),
    {
        let hit = gen_ratio(&mut rng, numerator, denominator);
        bombs.push(hit);
    }
    bombs
}

} // verus!
