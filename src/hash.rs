//! Integer lattice hashing: a deterministic pseudo-random value in `0..ONE`
//! for every lattice point and channel.
use crate::fixed::ONE;
use vstd::prelude::*;

verus! {

pub const MIX_A: u64 = 0xff51_afd7_ed55_8ccd;

pub const MIX_B: u64 = 0xc4ce_b9fe_1a85_ec53;

pub const PRIME_X: u64 = 0x9e37_79b9_7f4a_7c15;

pub const PRIME_Y: u64 = 0xc2b2_ae3d_27d4_eb4f;

pub const PRIME_Z: u64 = 0x1656_67b1_9e37_79f9;

pub const PRIME_C: u64 = 0x27d4_eb2f_1656_67c5;

/// A 64-bit avalanche finalizer.
pub open spec fn mix_spec(h: u64) -> u64 {
    let a = (h ^ (h >> 33u64)).wrapping_mul(MIX_A);
    let b = (a ^ (a >> 33u64)).wrapping_mul(MIX_B);
    b ^ (b >> 33u64)
}

/// The 64 hashed bits of a lattice point and channel: the coordinates are
/// folded in one after another, each followed by a full mix.
#[verifier::opaque]
pub open spec fn lattice_bits(x: i64, y: i64, z: i64, channel: u64) -> u64 {
    let t = mix_spec((z as u64).wrapping_mul(PRIME_Z).wrapping_add(channel.wrapping_mul(PRIME_C)));
    let u = mix_spec((y as u64).wrapping_mul(PRIME_Y).wrapping_add(t));
    mix_spec((x as u64).wrapping_mul(PRIME_X).wrapping_add(u))
}

/// The hash of a lattice point as a fixed-point value in `0..ONE`: the top
/// sixteen hashed bits.
pub open spec fn hash_spec(x: int, y: int, z: int, channel: int) -> int {
    (lattice_bits(x as i64, y as i64, z as i64, channel as u64) >> 48u64) as int
}

fn mix(h: u64) -> (r: u64)
    ensures
        r == mix_spec(h),
{
    let a = (h ^ (h >> 33u64)).wrapping_mul(MIX_A);
    let b = (a ^ (a >> 33u64)).wrapping_mul(MIX_B);
    b ^ (b >> 33u64)
}

/// Hashes lattice point `(x, y, z)` on the given channel to `0..ONE`.
pub fn hash(x: i64, y: i64, z: i64, channel: u64) -> (r: i64)
    ensures
        r == hash_spec(x as int, y as int, z as int, channel as int),
        0 <= r < ONE,
{
    let t = mix((z as u64).wrapping_mul(PRIME_Z).wrapping_add(channel.wrapping_mul(PRIME_C)));
    let u = mix((y as u64).wrapping_mul(PRIME_Y).wrapping_add(t));
    let h = mix((x as u64).wrapping_mul(PRIME_X).wrapping_add(u));
    proof {
        reveal(lattice_bits);
    }
    let top = h >> 48u64;
    assert(top < 65536) by (bit_vector)
        requires
            top == h >> 48u64,
    ;
    top as i64
}

} // verus!
