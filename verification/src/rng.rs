//! A small deterministic pseudo-random generator.
//!
//! Every stochastic choice the tracer makes (bounce directions, the
//! reflect-or-refract coin, the axis picked when a tree node is split) draws
//! from an explicitly passed, seedable generator, so a render is a pure
//! function of the scene, the camera rays and one seed.

use vstd::prelude::*;

verus! {

/// The additive constant of the state walk.
pub const STATE_GAMMA: u64 = 0x9e37_79b9_7f4a_7c15;

/// First multiplier of the output mix.
pub const MIX_M1: u64 = 0xbf58_476d_1ce4_e5b9;

/// Second multiplier of the output mix.
pub const MIX_M2: u64 = 0x94d0_49bb_1331_11eb;

/// The state that follows `s`.
pub open spec fn rng_advance(s: u64) -> u64 {
    ((s + STATE_GAMMA) % 0x1_0000_0000_0000_0000) as u64
}

/// The word the generator emits when stepped from state `s`.
pub open spec fn rng_output(s: u64) -> u64 {
    let z0 = rng_advance(s);
    let z1 = (((z0 ^ (z0 >> 30)) * MIX_M1) % 0x1_0000_0000_0000_0000) as u64;
    let z2 = (((z1 ^ (z1 >> 27)) * MIX_M2) % 0x1_0000_0000_0000_0000) as u64;
    z2 ^ (z2 >> 31)
}

/// Multiplication of two words, reduced modulo the word size.
fn mul_wrap(a: u64, b: u64) -> (r: u64)
    ensures
        r == ((a * b) % 0x1_0000_0000_0000_0000),
{
    proof {
        assert((a as u128) * (b as u128) <= 0xffff_ffff_ffff_ffff * 0xffff_ffff_ffff_ffffu128)
            by (nonlinear_arith)
            requires
                a <= 0xffff_ffff_ffff_ffffu64,
                b <= 0xffff_ffff_ffff_ffffu64,
        ;
    }
    let p: u128 = (a as u128) * (b as u128);
    (p % 0x1_0000_0000_0000_0000u128) as u64
}

/// The generator: 64 bits of state, stepped by a constant and mixed on output.
pub struct Rng {
    state: u64,
}

impl View for Rng {
    type V = u64;

    closed spec fn view(&self) -> u64 {
        self.state
    }
}

impl Rng {
    /// A generator that will produce the draw sequence of `seed`.
    pub fn new(seed: u64) -> (r: Rng)
        ensures
            r@ == seed,
    {
        Rng { state: seed }
    }

    /// Draw one word; the state advances by the fixed increment.
    pub fn next_u64(&mut self) -> (r: u64)
        ensures
            final(self)@ == rng_advance(old(self)@),
            r == rng_output(old(self)@),
    {
        let s0: u64 = self.state;
        let z0: u64 = if s0 <= 0xffff_ffff_ffff_ffff - STATE_GAMMA {
            proof {
                vstd::arithmetic::div_mod::lemma_small_mod(
                    (s0 + STATE_GAMMA) as nat,
                    0x1_0000_0000_0000_0000,
                );
            }
            s0 + STATE_GAMMA
        } else {
            proof {
                vstd::arithmetic::div_mod::lemma_mod_sub_multiples_vanish(
                    s0 as int + STATE_GAMMA as int,
                    0x1_0000_0000_0000_0000,
                );
                vstd::arithmetic::div_mod::lemma_small_mod(
                    (s0 + STATE_GAMMA - 0x1_0000_0000_0000_0000) as nat,
                    0x1_0000_0000_0000_0000,
                );
            }
            (s0 - (0xffff_ffff_ffff_ffff - STATE_GAMMA)) - 1
        };
        self.state = z0;
        let z1: u64 = mul_wrap(z0 ^ (z0 >> 30), MIX_M1);
        let z2: u64 = mul_wrap(z1 ^ (z1 >> 27), MIX_M2);
        z2 ^ (z2 >> 31)
    }

    /// Draw a value below `bound`.
    pub fn below(&mut self, bound: u64) -> (r: u64)
        requires
            1 <= bound,
        ensures
            final(self)@ == rng_advance(old(self)@),
            r == rng_output(old(self)@) % bound,
            r < bound,
    {
        let w = self.next_u64();
        w % bound
    }
}

} // verus!
