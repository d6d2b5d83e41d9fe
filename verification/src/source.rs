//! Where the chain takes its random numbers from: the generator of the
//! current thread, or a generator that a seed fixes.

use rand::RngCore;
use rand::SeedableRng;
use vstd::prelude::*;

verus! {

/// `rand::rngs::ThreadRng`, a handle to the generator of a thread. It is
/// carried along and never looked into.
#[verifier::external_type_specification]
#[verifier::external_body]
pub struct ExThreadRng(rand::rngs::ThreadRng);

/// `rand::rngs::StdRng`, the standard generator of the `rand` crate. It is
/// carried along and never looked into.
#[verifier::external_type_specification]
#[verifier::external_body]
pub struct ExStdRng(rand::rngs::StdRng);

/// A source of random numbers. Nothing is known of the numbers it hands out.
pub enum RandomSource {
    /// The generator of the current thread, seeded by the system.
    Thread(rand::rngs::ThreadRng),
    /// A generator whose whole stream follows from its seed.
    Seeded(rand::rngs::StdRng),
}

/// `rand::thread_rng`: a handle to the generator of the current thread.
/// Nothing is claimed of it. It fails only where the system cannot seed
/// the thread's generator.
#[verifier::external_body]
fn thread_generator() -> rand::rngs::ThreadRng {
    rand::thread_rng()
}

/// `SeedableRng::seed_from_u64` of `rand::rngs::StdRng`: a generator made
/// from `seed`. Nothing is claimed of it.
#[verifier::external_body]
fn seeded_generator(seed: u64) -> rand::rngs::StdRng {
    rand::rngs::StdRng::seed_from_u64(seed)
}

/// `RngCore::next_u32` of `rand::rngs::ThreadRng`: the next 32 random bits.
/// Nothing is claimed of them.
#[verifier::external_body]
fn thread_next_u32(rng: &mut rand::rngs::ThreadRng) -> u32 {
    rng.next_u32()
}

/// `RngCore::next_u64` of `rand::rngs::ThreadRng`: the next 64 random bits.
/// Nothing is claimed of them.
#[verifier::external_body]
fn thread_next_u64(rng: &mut rand::rngs::ThreadRng) -> u64 {
    rng.next_u64()
}

/// `RngCore::next_u32` of `rand::rngs::StdRng`: the next 32 random bits.
/// Nothing is claimed of them.
#[verifier::external_body]
fn seeded_next_u32(rng: &mut rand::rngs::StdRng) -> u32 {
    rng.next_u32()
}

/// `RngCore::next_u64` of `rand::rngs::StdRng`: the next 64 random bits.
/// Nothing is claimed of them.
#[verifier::external_body]
fn seeded_next_u64(rng: &mut rand::rngs::StdRng) -> u64 {
    rng.next_u64()
}

impl RandomSource {
    /// The generator of the current thread.
    pub fn thread() -> (source: RandomSource)
        ensures
            source is Thread,
    {
        RandomSource::Thread(thread_generator())
    }

    /// A generator that `seed` fixes.
    pub fn seeded(seed: u64) -> (source: RandomSource)
        ensures
            source is Seeded,
    {
        RandomSource::Seeded(seeded_generator(seed))
    }

    /// The next 32 random bits.
    pub fn next_u32(&mut self) -> (bits: u32)
        ensures
            *old(self) is Thread <==> *final(self) is Thread,
    {
        match self {
            RandomSource::Thread(rng) => thread_next_u32(rng),
            RandomSource::Seeded(rng) => seeded_next_u32(rng),
        }
    }

    /// The next 64 random bits.
    pub fn next_u64(&mut self) -> (bits: u64)
        ensures
            *old(self) is Thread <==> *final(self) is Thread,
    {
        match self {
            RandomSource::Thread(rng) => thread_next_u64(rng),
            RandomSource::Seeded(rng) => seeded_next_u64(rng),
        }
    }
}

} // verus!
