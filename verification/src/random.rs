//! The source of the random positions that seeding draws.

use rand::distributions::{Distribution, Uniform};
use rand::rngs::ThreadRng;
use vstd::prelude::*;

verus! {

/// `rand::rngs::ThreadRng`, the handle to the generator that rand keeps
/// for each thread. Nothing is known of what it holds.
#[verifier::external_type_specification]
#[verifier::external_body]
pub struct ExThreadRng(ThreadRng);

/// `rand::thread_rng` hands out the calling thread's generator, which the
/// system seeds. Nothing is claimed of it. Where the system gives no
/// seed, rand panics on a thread's first call.
pub assume_specification[ rand::thread_rng ]() -> (rng: ThreadRng)
;

/// One draw from `rand::distributions::Uniform` over `0..n`, made with
/// `Uniform::from` and `Distribution::sample`. `Uniform::from` panics on
/// an empty range, hence `n > 0`; a sample lies in the range. Which
/// position comes out is left open.
#[verifier::external_body]
pub(crate) fn draw_index(rng: &mut ThreadRng, n: usize) -> (i: usize)
    requires
        n > 0,
    ensures
        i < n,
{
    Uniform::from(0..n).sample(rng)
}

} // verus!
