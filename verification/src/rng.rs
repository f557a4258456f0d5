use vstd::prelude::*;

verus! {

/// A seedable xoroshiro128+ pseudo-random bit generator.
///
/// The whole chart generation pipeline draws from this generator and from
/// nothing else, so a chart is a pure function of its seed.  The exact
/// rotate-and-shift schedule below is therefore part of the contract: the
/// spec functions `rng_output` and `rng_step` describe one step of the
/// generator exactly, and `next` is proved to follow them.
#[derive(PartialEq, Eq, Structural, Debug, Clone, Copy)]
pub struct RNG {
    pub s0: u64,
    pub s1: u64,
}

/// The value one call of `RNG::next` returns: the wrapping sum of the two
/// state words.
pub open spec fn rng_output(r: RNG) -> u64 {
    if r.s0 + r.s1 > u64::MAX {
        (r.s0 + r.s1 - 0x1_0000_0000_0000_0000) as u64
    } else {
        (r.s0 + r.s1) as u64
    }
}

/// The state after one call of `RNG::next`.
pub open spec fn rng_step(r: RNG) -> RNG {
    let mixed = r.s1 ^ r.s0;
    RNG {
        s0: ((r.s0 << 55) | (r.s0 >> 9)) ^ mixed ^ (mixed << 14),
        s1: (mixed << 36) | (mixed >> 28),
    }
}

/// The state after `n` calls of `RNG::next`.
pub open spec fn rng_skip(r: RNG, n: nat) -> RNG
    decreases n,
{
    if n == 0 {
        r
    } else {
        rng_skip(rng_step(r), (n - 1) as nat)
    }
}

/// The value one call of `RNG::next_fraction` returns: the top 24 bits of
/// the next 64-bit output, read as the numerator of a fraction over 2^24.
pub open spec fn rng_fraction(r: RNG) -> u64 {
    rng_output(r) >> 40
}

impl RNG {
    pub fn new(seed: [u64; 2]) -> (r: RNG)
        ensures
            r == (RNG { s0: seed[0], s1: seed[1] }),
    {
        RNG { s0: seed[0], s1: seed[1] }
    }

    pub fn new_u64(seed: u64) -> (r: RNG)
        ensures
            r == (RNG { s0: seed, s1: 0u64 }),
    {
        RNG { s0: seed, s1: 0 }
    }

    /// Advance the generator one step and return its next 64-bit output.
    pub fn next(&mut self) -> (r: u64)
        ensures
            r == rng_output(*old(self)),
            *final(self) == rng_step(*old(self)),
    {
        let s0 = self.s0;
        let mut s1 = self.s1;
        let result = s0.wrapping_add(s1);

        s1 = s1 ^ s0;
        self.s0 = ((s0 << 55) | (s0 >> 9)) ^ s1 ^ (s1 << 14);
        self.s1 = (s1 << 36) | (s1 >> 28);

        result
    }

    /// Draw a uniform fraction numerator in [0, 2^24): the next output's top
    /// 24 bits.  The drawn value stands for the real number `r / 2^24`, which
    /// always lies in [0, 1).
    pub fn next_fraction(&mut self) -> (r: u64)
        ensures
            r == rng_fraction(*old(self)),
            *final(self) == rng_step(*old(self)),
            r < 0x100_0000,
    {
        let v = self.next();
        let r = v >> 40;
        assert(r < 0x100_0000) by (bit_vector)
            requires
                r == v >> 40,
        ;
        r
    }
}

} // verus!
