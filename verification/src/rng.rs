//! The pseudo-random numbers that the treap priorities and the workloads are drawn
//! from.
use vstd::prelude::*;

verus! {

/// The state after one draw.
pub open spec fn next_state(x: u64) -> u64 {
    x.wrapping_add(0x9e37_79b9_7f4a_7c15)
}

/// The state after `k` draws.
pub open spec fn state_after(x: u64, k: nat) -> u64
    decreases k,
{
    if k == 0 {
        x
    } else {
        next_state(state_after(x, (k - 1) as nat))
    }
}

/// The number drawn in state `x`.
#[verifier::opaque]
pub open spec fn scrambled(x: u64) -> u64 {
    let a = (x ^ (x >> 30)).wrapping_mul(0xbf58_476d_1ce4_e5b9);
    let b = (a ^ (a >> 27)).wrapping_mul(0x94d0_49bb_1331_11eb);
    b ^ (b >> 31)
}

/// The number below `modu` drawn in state `x`: the upper half of the draw, reduced.
pub open spec fn below(x: u64, modu: u32) -> u32 {
    ((scrambled(x) >> 32) % (modu as u64)) as u32
}

/// Draws a 64-bit number.
pub fn splitmix64(x: &mut u64) -> (z: u64)
    ensures
        *final(x) == next_state(*old(x)),
        z == scrambled(*final(x)),
{
    reveal(scrambled);
    *x = x.wrapping_add(0x9e37_79b9_7f4a_7c15);
    let mut z: u64 = *x;
    z = (z ^ (z >> 30)).wrapping_mul(0xbf58_476d_1ce4_e5b9);
    z = (z ^ (z >> 27)).wrapping_mul(0x94d0_49bb_1331_11eb);
    z ^ (z >> 31)
}

/// Draws a number below `modu`.
pub fn rnd(s: &mut u64, modu: u32) -> (v: u32)
    requires
        modu > 0,
    ensures
        *final(s) == next_state(*old(s)),
        v == below(*final(s), modu),
        v < modu,
{
    let z: u64 = splitmix64(s);
    ((z >> 32) % modu as u64) as u32
}

} // verus!
