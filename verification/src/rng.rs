//! The deterministic pseudo-random numbers of the simulation.

use vstd::prelude::*;

verus! {

/// The seed that a match id, a tick and a salt give.
pub open spec fn seed_of(match_id: u64, tick: u64, salt: u64) -> u64 {
    ((match_id * 6364136223846793005 + tick * 1442695040888963407 + salt) % 0x1_0000_0000_0000_0000)
        as u64
}

/// The seed that follows a seed.
pub open spec fn seed_after(seed: u64) -> u64 {
    ((seed * 6364136223846793005 + 1) % 0x1_0000_0000_0000_0000) as u64
}

/// The range of the seeds.
spec fn modulus() -> int {
    0x1_0000_0000_0000_0000
}

/// A sum of remainders has the remainder of the sum.
proof fn lemma_sum_wraps(x: int, y: int)
    ensures
        (x % modulus() + y % modulus()) % modulus() == (x + y) % modulus(),
{
    vstd::arithmetic::div_mod::lemma_add_mod_noop(x, y, modulus());
}

/// A product, reduced to the range of the seeds.
fn wrapped_product(a: u64, b: u64) -> (r: u64)
    ensures
        r == (a * b) % modulus(),
{
    a.wrapping_mul(b)
}

/// A sum, reduced to the range of the seeds.
fn wrapped_sum(a: u64, b: u64) -> (r: u64)
    ensures
        r == (a + b) % modulus(),
{
    a.wrapping_add(b)
}

/// Mixes a match id, a tick and a salt into a seed.
pub fn rng_seed(match_id: u64, tick: u64, salt: u64) -> (r: u64)
    ensures
        r == seed_of(match_id, tick, salt),
{
    let mixed_match: u64 = wrapped_product(match_id, 6364136223846793005);
    let mixed_tick: u64 = wrapped_product(tick, 1442695040888963407);
    let mixed: u64 = wrapped_sum(mixed_match, mixed_tick);
    proof {
        let a = match_id * 6364136223846793005;
        let b = tick * 1442695040888963407;
        lemma_sum_wraps(a, b);
        lemma_sum_wraps(a + b, salt as int);
        assert(salt as int % modulus() == salt);
    }
    wrapped_sum(mixed, salt)
}

/// Steps a seed.
pub fn rng_next(seed: u64) -> (r: u64)
    ensures
        r == seed_after(seed),
{
    let product: u64 = wrapped_product(seed, 6364136223846793005);
    proof {
        lemma_sum_wraps(seed * 6364136223846793005, 1);
    }
    wrapped_sum(product, 1)
}

/// Steps a seed and draws a number below `max` from it.
pub fn rng_range(seed: u64, max: u32) -> (r: (u64, u32))
    requires
        max > 0,
    ensures
        r.0 == seed_after(seed),
        r.1 == seed_after(seed) as int % max as int,
{
    let next: u64 = rng_next(seed);
    (next, (next % (max as u64)) as u32)
}

} // verus!
