//! The integer part of the k-means++ seeding: a 64-bit linear congruential
//! generator (Knuth's MMIX constants).
use vstd::prelude::*;

verus! {

pub const LCG_MULTIPLIER: u64 = 6364136223846793005;

pub const LCG_INCREMENT: u64 = 1442695040888963407;

/// The next state of the generator.
pub open spec fn spec_lcg_next(state: u64) -> u64 {
    ((state as int * LCG_MULTIPLIER as int + LCG_INCREMENT as int) % 0x1_0000_0000_0000_0000) as u64
}

/// Advances the generator by one step.
fn lcg_step(state: &mut u64)
    ensures
        *final(state) == spec_lcg_next(*old(state)),
{
    let m = state.wrapping_mul(LCG_MULTIPLIER);
    *state = m.wrapping_add(LCG_INCREMENT);
    proof {
        let s = *old(state) as int;
        let a = LCG_MULTIPLIER as int;
        let c = LCG_INCREMENT as int;
        let p = 0x1_0000_0000_0000_0000int;
        let m = (s * a) % p;
        vstd::arithmetic::div_mod::lemma_add_mod_noop(s * a, c, p);
        vstd::arithmetic::div_mod::lemma_small_mod(c as nat, p as nat);
        assert(0 <= m < p) by {
            vstd::arithmetic::div_mod::lemma_mod_bound(s * a, p);
        }
        if m + c >= p {
            vstd::arithmetic::div_mod::lemma_small_mod((m + c - p) as nat, p as nat);
            vstd::arithmetic::div_mod::lemma_mod_sub_multiples_vanish(m + c, p);
        } else {
            vstd::arithmetic::div_mod::lemma_small_mod((m + c) as nat, p as nat);
        }
    }
}

/// Advances the generator and draws an index below `n` from the top 31 bits.
pub fn lcg_usize(state: &mut u64, n: usize) -> (r: usize)
    requires
        n > 0,
    ensures
        *final(state) == spec_lcg_next(*old(state)),
        r == (*final(state) >> 33u64) as int % n as int,
        r < n,
{
    lcg_step(state);
    let hi = *state >> 33u64;
    assert(hi < 0x8000_0000u64) by (bit_vector)
        requires hi == *state >> 33u64;
    (hi as usize) % n
}

/// Advances the generator and returns its top 53 bits, the numerator of a
/// draw in `[0, 1)` over `2^53`.
pub fn lcg_bits53(state: &mut u64) -> (r: u64)
    ensures
        *final(state) == spec_lcg_next(*old(state)),
        r == *final(state) >> 11u64,
        r < 0x20_0000_0000_0000,
{
    lcg_step(state);
    let hi = *state >> 11u64;
    assert(hi < 0x20_0000_0000_0000u64) by (bit_vector)
        requires hi == *state >> 11u64;
    hi
}

} // verus!
