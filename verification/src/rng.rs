//! Deterministic 64-bit PRNG (splitmix64) for reproducible
//! synthetic streams.
use vstd::prelude::*;

verus! {

/// The splitmix64 increment.
pub const GAMMA: u64 = 0x9E37_79B9_7F4A_7C15;

/// First mixing multiplier.
pub const MIX1: u64 = 0xBF58_476D_1CE4_E5B9;

/// Second mixing multiplier.
pub const MIX2: u64 = 0x94D0_49BB_1331_11EB;

/// `x + y` modulo `2^64`.
pub open spec fn add_wrap(x: u64, y: u64) -> u64 {
    if x + y > u64::MAX {
        (x + y - 0x1_0000_0000_0000_0000) as u64
    } else {
        (x + y) as u64
    }
}

/// `x * y` modulo `2^64`.
pub open spec fn mul_wrap(x: u64, y: u64) -> u64 {
    ((x as nat * y as nat) % 0x1_0000_0000_0000_0000) as u64
}

/// The splitmix64 output function: two xor-shift-multiply
/// rounds and a final xor-shift.
#[verifier::opaque]
pub open spec fn mix(z: u64) -> u64 {
    let a = mul_wrap(z ^ (z >> 30u64), MIX1);
    let b = mul_wrap(a ^ (a >> 27u64), MIX2);
    b ^ (b >> 31u64)
}

/// A splitmix64 generator; the field is its running state, so
/// `SplitMix64(seed)` starts a stream.
pub struct SplitMix64(pub u64);

impl SplitMix64 {
    /// Next raw u64: advance the state by `GAMMA` (wrapping) and
    /// mix it.
    pub fn next(&mut self) -> (r: u64)
        ensures
            final(self).0 == add_wrap(old(self).0, GAMMA),
            r == mix(final(self).0),
    {
        self.0 = self.0.wrapping_add(GAMMA);
        let mut mixed = self.0;
        mixed = (mixed ^ (mixed >> 30u64)).wrapping_mul(MIX1);
        mixed = (mixed ^ (mixed >> 27u64)).wrapping_mul(MIX2);
        proof {
            reveal(mix);
        }
        mixed ^ (mixed >> 31u64)
    }
}

} // verus!
