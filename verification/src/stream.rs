//! Synthetic heavy-tailed latency stream.
//!
//! - Shape: a body of `BASE_LO..BASE_LO+BASE_SPAN` ticks, with
//!   roughly 1 draw in `TAIL_ODDS` leaving it — a near tail
//!   stretching up to `NEAR_TAIL_MULT`× and a far tail up to
//!   `FAR_TAIL_MULT`×.
//! - Infinite and seeded: the same seed gives the same values.
use vstd::prelude::*;
use crate::rng::{SplitMix64, GAMMA, add_wrap, mix};

verus! {

/// Low end of the stream's body values.
pub const BASE_LO: u64 = 50;

/// Width of the stream's uniformly-drawn body.
pub const BASE_SPAN: u64 = 100;

/// One draw in `TAIL_ODDS` leaves the body for a tail.
pub const TAIL_ODDS: u64 = 1_000;

/// Draws `1..=NEAR_TAIL_SHARE` (of `TAIL_ODDS`) take the near
/// tail; draw `0` takes the far tail.
pub const NEAR_TAIL_SHARE: u64 = 9;

/// Multiplier bound for the near tail.
pub const NEAR_TAIL_MULT: u64 = 100;

/// Multiplier bound for the far tail.
pub const FAR_TAIL_MULT: u64 = 10_000;

/// One draw from generator state `s`: the state after it and the
/// unclamped sample — a body value, stretched by a tail
/// multiplier on a tail draw.
pub open spec fn draw(s: u64) -> (u64, u64) {
    let s1 = add_wrap(s, GAMMA);
    let base = BASE_LO + mix(s1) % BASE_SPAN;
    let s2 = add_wrap(s1, GAMMA);
    let pick = mix(s2) % TAIL_ODDS;
    let s3 = add_wrap(s2, GAMMA);
    if pick == 0 {
        (s3, (base * (1 + mix(s3) % FAR_TAIL_MULT)) as u64)
    } else if pick <= NEAR_TAIL_SHARE {
        (s3, (base * (1 + mix(s3) % NEAR_TAIL_MULT)) as u64)
    } else {
        (s2, base as u64)
    }
}

/// The stream's shape. With `s1`, `s2` the generator states
/// after one and two steps from `s`, a draw's body value is
/// `base = BASE_LO + mix(s1) % BASE_SPAN` and its tail pick is
/// `pick = mix(s2) % TAIL_ODDS`. Every sample is a whole
/// multiple of its base; a body draw (`pick > NEAR_TAIL_SHARE`)
/// is the base itself and leaves the generator at `s2`; a
/// near-tail draw (`1 <= pick <= NEAR_TAIL_SHARE`) stretches it
/// at most `NEAR_TAIL_MULT` times; only a far-tail draw
/// (`pick == 0`, one in `TAIL_ODDS`) may stretch it up to
/// `FAR_TAIL_MULT` times. Tail draws take one more step.
pub proof fn lemma_draw_shape(s: u64)
    ensures
        ({
            let s1 = add_wrap(s, GAMMA);
            let s2 = add_wrap(s1, GAMMA);
            let base = BASE_LO + mix(s1) % BASE_SPAN;
            let pick = mix(s2) % TAIL_ODDS;
            let (next, v) = draw(s);
            &&& BASE_LO <= base < BASE_LO + BASE_SPAN
            &&& base <= v
            &&& (v as int) % base == 0
            &&& pick > NEAR_TAIL_SHARE ==> v == base && next == s2
            &&& 1 <= pick <= NEAR_TAIL_SHARE ==> v <= base * NEAR_TAIL_MULT && v <= (BASE_LO
                + BASE_SPAN - 1) * NEAR_TAIL_MULT && next == add_wrap(s2, GAMMA)
            &&& pick == 0 ==> v <= base * FAR_TAIL_MULT && v <= (BASE_LO + BASE_SPAN - 1)
                * FAR_TAIL_MULT && next == add_wrap(s2, GAMMA)
        }),
{
    let s1 = add_wrap(s, GAMMA);
    let s2 = add_wrap(s1, GAMMA);
    let s3 = add_wrap(s2, GAMMA);
    let base = BASE_LO + mix(s1) % BASE_SPAN;
    let pick = mix(s2) % TAIL_ODDS;
    let near = 1 + mix(s3) % NEAR_TAIL_MULT;
    let far = 1 + mix(s3) % FAR_TAIL_MULT;
    assert(base * near <= base * NEAR_TAIL_MULT && base * NEAR_TAIL_MULT <= 149 * NEAR_TAIL_MULT)
        by (nonlinear_arith)
        requires
            1 <= near <= NEAR_TAIL_MULT,
            50 <= base <= 149,
    ;
    assert(base * far <= base * FAR_TAIL_MULT && base * FAR_TAIL_MULT <= 149 * FAR_TAIL_MULT)
        by (nonlinear_arith)
        requires
            1 <= far <= FAR_TAIL_MULT,
            50 <= base <= 149,
    ;
    assert(base <= base * near && base <= base * far) by (nonlinear_arith)
        requires
            near >= 1,
            far >= 1,
            base >= 0,
    ;
    vstd::arithmetic::div_mod::lemma_mod_multiples_basic(near as int, base as int);
    vstd::arithmetic::div_mod::lemma_mod_multiples_basic(far as int, base as int);
    vstd::arithmetic::mul::lemma_mul_is_commutative(near as int, base as int);
    vstd::arithmetic::mul::lemma_mul_is_commutative(far as int, base as int);
    vstd::arithmetic::div_mod::lemma_mod_self_0(base as int);
}

/// A heavy-tailed tick stream clamped into a histogram's
/// trackable range.
pub struct HeavyTailed {
    rng: SplitMix64,
    max_value: u64,
}

impl HeavyTailed {
    /// The generator state.
    pub closed spec fn state(self) -> u64 {
        self.rng.0
    }

    /// The clamp bound.
    pub closed spec fn bound(self) -> u64 {
        self.max_value
    }

    /// Start a stream from `seed`, clamping every value into
    /// `1..=max_value` (typically `Config::max_value`).
    pub fn new(seed: u64, max_value: u64) -> (r: Self)
        ensures
            r.state() == seed,
            r.bound() == max_value,
    {
        HeavyTailed { rng: SplitMix64(seed), max_value }
    }

    /// One sample: draw the body value, then decide whether this
    /// draw escapes into a tail; clamped into `1..=max_value`.
    pub fn next(&mut self) -> (r: Option<u64>)
        requires
            old(self).bound() >= 1,
        ensures
            final(self).bound() == old(self).bound(),
            final(self).state() == draw(old(self).state()).0,
            r == Some(
                if draw(old(self).state()).1 < 1 {
                    1
                } else if draw(old(self).state()).1 > old(self).bound() {
                    old(self).bound()
                } else {
                    draw(old(self).state()).1
                },
            ),
    {
        let base = BASE_LO + (self.rng.next() % BASE_SPAN);
        let value = match self.rng.next() % TAIL_ODDS {
            0 => {
                let stretch = 1 + self.rng.next() % FAR_TAIL_MULT;
                assert(base * stretch <= 149 * 10_000) by (nonlinear_arith)
                    requires
                        base <= 149,
                        stretch <= 10_000,
                ;
                base * stretch
            },
            1..=NEAR_TAIL_SHARE => {
                let stretch = 1 + self.rng.next() % NEAR_TAIL_MULT;
                assert(base * stretch <= 149 * 100) by (nonlinear_arith)
                    requires
                        base <= 149,
                        stretch <= 100,
                ;
                base * stretch
            },
            _ => base,
        };
        let clamped = if value < 1 {
            1
        } else if value > self.max_value {
            self.max_value
        } else {
            value
        };
        Some(clamped)
    }
}

} // verus!
