//! The linear-feedback pseudo-random generator the sampler draws from.
use vstd::prelude::*;

verus! {

/// One shift of the 23-bit feedback register: the new low bit is the
/// parity of taps 22 and 17.
pub open spec fn prng_step(s: u32) -> u32 {
    (((s % 0x400000) * 2) + ((s / 0x400000) % 2 + (s / 0x20000) % 2) % 2) as u32
}

/// The register after `n` shifts.
pub open spec fn prng_iter(s: u32, n: nat) -> u32
    decreases n,
{
    if n == 0 {
        s
    } else {
        prng_step(prng_iter(s, (n - 1) as nat))
    }
}

pub struct PRNG {
    pub seed: u32,
}

impl PRNG {
    pub fn new(seed: u32) -> (r: PRNG)
        ensures
            r.seed == seed,
    {
        PRNG { seed }
    }

    /// Advance the register by 256 shifts and return it.
    pub fn next(&mut self) -> (r: u32)
        ensures
            final(self).seed == prng_iter(old(self).seed, 256),
            r == final(self).seed,
    {
        let mut k: usize = 0;
        while k < 256
            invariant
                k <= 256,
                self.seed == prng_iter(old(self).seed, k as nat),
                self.seed < 0x100000000,
            decreases 256 - k,
        {
            let b = (self.seed / 0x400000) % 2 + (self.seed / 0x20000) % 2;
            self.seed = (self.seed % 0x400000) * 2 + b % 2;
            k += 1;
        }
        self.seed
    }
}

} // verus!
