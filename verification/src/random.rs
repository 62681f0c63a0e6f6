use vstd::prelude::*;

verus! {

/// One step of the 32-bit xorshift permutation (shift triple 13, 17, 5).
pub open spec fn xorshift_step(s: u32) -> u32 {
    let a = s ^ (s << 13u32);
    let b = a ^ (a >> 17u32);
    b ^ (b << 5u32)
}

/// Minimal 32-bit xorshift pseudo-random generator.
///
/// The generator remembers its seed so that the stream can be replayed from
/// the start with `reset`.
pub struct Prng {
    state: u32,
    seed: u32,
}

impl Prng {
    /// The current internal state; the next draw is `xorshift_step` of it.
    pub closed spec fn state(self) -> u32 {
        self.state
    }

    /// The seed the generator was created with.
    pub closed spec fn seed(self) -> u32 {
        self.seed
    }

    pub fn new(seed: u32) -> (r: Self)
        ensures
            r.state() == seed,
            r.seed() == seed,
    {
        Self { state: seed, seed: seed }
    }

    /// Rewind the stream to its start.
    pub fn reset(&mut self)
        ensures
            final(self).state() == old(self).seed(),
            final(self).seed() == old(self).seed(),
    {
        self.state = self.seed
    }

    /// Draw the next value of the stream.
    pub fn next(&mut self) -> (r: u32)
        ensures
            final(self).state() == xorshift_step(old(self).state()),
            final(self).seed() == old(self).seed(),
            r == xorshift_step(old(self).state()),
    {
        self.state = self.state ^ (self.state << 13u32);
        self.state = self.state ^ (self.state >> 17u32);
        self.state = self.state ^ (self.state << 5u32);
        self.state
    }
}

} // verus!
