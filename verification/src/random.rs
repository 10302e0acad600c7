//! A seeded, fully deterministic pseudo-random generator.
//!
//! The simulation's only source of randomness.  The generator is an
//! xorshift128 over four 32-bit words, threaded explicitly through every call
//! that needs it, so that two runs from the same seed take exactly the same
//! decisions.

use vstd::prelude::*;

verus! {

/// Seed for the pseudo-random generator: four 32-bit words.
#[derive(Clone, Copy, PartialEq, Eq, Structural, Debug)]
pub struct Seed(pub u32, pub u32, pub u32, pub u32);

/// Deterministic xorshift128 pseudo-random generator state.
#[derive(Clone, Copy, PartialEq, Eq, Structural, Debug)]
pub struct Rng {
    pub x: u32,
    pub y: u32,
    pub z: u32,
    pub w: u32,
}

/// One xorshift128 step: the next state of the generator.
pub open spec fn step(r: Rng) -> Rng {
    let t = r.x ^ ((r.x << 11) as u32);
    Rng { x: r.y, y: r.z, z: r.w, w: (r.w ^ (r.w >> 19)) ^ (t ^ (t >> 8)) }
}

/// Two 32-bit draws combined into one 64-bit value, high word first.
pub open spec fn combine(hi: u32, lo: u32) -> u64 {
    (((hi as u64) << 32) | (lo as u64)) as u64
}

/// The state `reseed` produces: the seed words themselves, or a fixed
/// non-zero state when every word is zero (an xorshift generator must never
/// hold the all-zero state).
pub open spec fn reseed_spec(seed: Seed) -> Rng {
    if seed.0 == 0 && seed.1 == 0 && seed.2 == 0 && seed.3 == 0 {
        Rng { x: 0x193a6754, y: 0xa8a7d469, z: 0x97830e05, w: 0x113ba7bb }
    } else {
        Rng { x: seed.0, y: seed.1, z: seed.2, w: seed.3 }
    }
}

/// Whether a 64-bit draw decides a drop for a node of the given age.  The
/// acceptance region halves with every year of age, so the drop probability
/// is 2^-age: strictly decreasing in age up to 64, zero beyond.
pub open spec fn age_flip_spec(v: u64, age: u64) -> bool {
    if age > 64 {
        false
    } else if age == 0 {
        true
    } else {
        v < (1u64 << ((64 - age) as u64))
    }
}

/// Creates a generator initialised from the given seed.
pub fn reseed(seed: Seed) -> (r: Rng)
    ensures
        r == reseed_spec(seed),
{
    if seed.0 == 0 && seed.1 == 0 && seed.2 == 0 && seed.3 == 0 {
        Rng { x: 0x193a6754, y: 0xa8a7d469, z: 0x97830e05, w: 0x113ba7bb }
    } else {
        Rng { x: seed.0, y: seed.1, z: seed.2, w: seed.3 }
    }
}

impl Rng {
    /// Advances the generator one step and returns the new low word.
    pub fn next_u32(&mut self) -> (r: u32)
        ensures
            *final(self) == step(*old(self)),
            r == step(*old(self)).w,
    {
        let t = self.x ^ (self.x << 11);
        self.x = self.y;
        self.y = self.z;
        self.z = self.w;
        self.w = (self.w ^ (self.w >> 19)) ^ (t ^ (t >> 8));
        self.w
    }

    /// Draws 64 random bits from two consecutive steps.
    pub fn next_u64(&mut self) -> (r: u64)
        ensures
            *final(self) == step(step(*old(self))),
            r == combine(step(*old(self)).w, step(step(*old(self))).w),
    {
        let hi = self.next_u32();
        let lo = self.next_u32();
        (((hi as u64) << 32) | (lo as u64))
    }

    /// Draws a fair coin.
    pub fn next_bool(&mut self) -> (r: bool)
        ensures
            *final(self) == step(*old(self)),
            r == (step(*old(self)).w & 1 == 0),
    {
        self.next_u32() & 1 == 0
    }

    /// Decides a drop for a node of the given age, with probability 2^-age.
    pub fn age_flip(&mut self, age: u64) -> (r: bool)
        ensures
            *final(self) == step(step(*old(self))),
            r == age_flip_spec(combine(step(*old(self)).w, step(step(*old(self))).w), age),
    {
        let v = self.next_u64();
        if age > 64 {
            false
        } else if age == 0 {
            true
        } else {
            v < (1u64 << (64 - age))
        }
    }
}

} // verus!
