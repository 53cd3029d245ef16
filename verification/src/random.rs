//! Where the numbers come from that decide a walk.

use vstd::prelude::*;
use rand::rngs::{StdRng, ThreadRng};
use rand::{Rng, SeedableRng};

verus! {

/// A source of numbers for the sampler.
///
/// The sampler asks for a number below the total of a distribution. A walk is as random
/// as its source: the generation functions promise what holds for every number that a
/// source can return.
pub trait RandomSource {
    /// Returns a number below `bound`.
    fn below(&mut self, bound: usize) -> (r: usize)
        requires
            bound > 0,
        ensures
            r < bound,
    ;
}

/// The seeded generator of the rand crate: opaque to the verifier.
#[verifier::external_type_specification]
#[verifier::external_body]
pub struct ExStdRng(StdRng);

/// The handle of the rand crate to the generator of a thread: opaque to the verifier.
#[verifier::external_type_specification]
#[verifier::external_body]
pub struct ExThreadRng(ThreadRng);

/// The generator that the rand crate keeps for each thread, seeded by the system.
pub struct ThreadSource {
    rng: ThreadRng,
}

/// A generator that is determined by its seed: two sources made from the same seed,
/// asked the same questions, give the same answers.
pub struct SeededSource {
    rng: StdRng,
}

impl ThreadSource {
    /// The source of the current thread.
    pub fn new() -> ThreadSource {
        ThreadSource { rng: thread_generator() }
    }
}

impl SeededSource {
    /// A source that starts from `seed`.
    pub fn new(seed: u64) -> SeededSource {
        SeededSource { rng: seeded_generator(seed) }
    }
}

impl RandomSource for ThreadSource {
    fn below(&mut self, bound: usize) -> (r: usize) {
        thread_below(&mut self.rng, bound)
    }
}

impl RandomSource for SeededSource {
    fn below(&mut self, bound: usize) -> (r: usize) {
        seeded_below(&mut self.rng, bound)
    }
}

/// Calls `rand::thread_rng()`, which hands out the generator of the current thread. Nothing
/// is claimed of the generator. The rand crate panics where the system gives it no seed.
#[verifier::external_body]
fn thread_generator() -> ThreadRng {
    rand::thread_rng()
}

/// Calls `gen_range(0..bound)` on the generator of the thread. The rand crate samples the
/// half-open range, so the result is below `bound`; it refuses an empty range, which the
/// precondition excludes. Nothing more is claimed of the number.
#[verifier::external_body]
fn thread_below(rng: &mut ThreadRng, bound: usize) -> (r: usize)
    requires
        bound > 0,
    ensures
        r < bound,
{
    rng.gen_range(0..bound)
}

/// Calls `StdRng::seed_from_u64(seed)`. Nothing is claimed of the generator.
#[verifier::external_body]
fn seeded_generator(seed: u64) -> StdRng {
    StdRng::seed_from_u64(seed)
}

/// Calls `gen_range(0..bound)` on the seeded generator. As for the generator of the
/// thread, the result is below `bound`, and the precondition excludes the empty range.
#[verifier::external_body]
fn seeded_below(rng: &mut StdRng, bound: usize) -> (r: usize)
    requires
        bound > 0,
    ensures
        r < bound,
{
    rng.gen_range(0..bound)
}

} // verus!
