//! The integer steps of the deterministic particle fountain.
//!
//! Particle `i` of a fountain of `count` particles sits at height fraction
//! `i / denominator` of the plume, and is nudged up or down by a small
//! repeating jitter.

use vstd::prelude::*;

verus! {

/// The number that particle indices are divided by to get their height
/// fraction: one less than the particle count, and at least one.
pub fn fountain_denominator(count: usize) -> (d: usize)
    ensures
        d == if count <= 1 {
            1
        } else {
            count - 1
        },
{
    let d = count.saturating_sub(1);
    if d < 1 {
        1
    } else {
        d
    }
}

/// The jitter step of particle `i`, from -3 to 3, repeating every seven particles.
pub fn fountain_jitter_step(i: usize) -> (step: i8)
    ensures
        step == (i % 7) as int - 3,
        -3 <= step <= 3,
{
    let m: usize = i % 7;
    let m8: i8 = m as i8;
    m8 - 3
}

} // verus!
