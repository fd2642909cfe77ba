//! The step of a linear congruential generator.
use vstd::prelude::*;

verus! {

/// The next seed after `seed`: `(seed * 1103515245 + 12345) mod 2^32`, then
/// reduced below `2^31`.
pub open spec fn lcg_step(seed: u32) -> u32 {
    (((seed * 1103515245 + 12345) % 0x1_0000_0000) % 0x8000_0000) as u32
}

/// One step of the generator: the new seed, which is also the draw.
pub fn next_seed(seed: u32) -> (r: u32)
    ensures
        r == lcg_step(seed),
        r < 0x8000_0000,
{
    let s: u64 = (seed as u64 * 1_103_515_245 + 12_345) % 0x1_0000_0000;
    (s % 0x8000_0000) as u32
}

} // verus!
