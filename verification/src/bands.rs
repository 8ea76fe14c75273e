//! Band-boundary ladder for report tables.
//!
//! - The z/p/n ladder: deciles in the body, nines/zeros
//!   notation in the tails — `zK`/`nK` mark the boundary with a
//!   fraction `10^-K` of samples below (z) or above (n), so
//!   n2 ≡ p99, z2 ≡ p1.
//! - Fences are integer rationals (`num/den`), so a rank
//!   boundary is `total * num / den` in u128 — exact.
//! - `BandAssign` distributes a bucket stream into the ladder's
//!   bands; two conventions ship ([`RankSplit`] and
//!   [`MidRank`]).
use vstd::prelude::*;
use vstd::arithmetic::div_mod::{lemma_div_is_ordered, lemma_fundamental_div_mod};
use vstd::arithmetic::mul::{lemma_mul_inequality, lemma_mul_is_commutative};
use crate::analysis::Bucket;
use crate::histogram::{sum_counts, lemma_sum_take_step, lemma_element_le_sum, lemma_sum_update};
use crate::config::Error;

verus! {

/// `10^e`.
pub open spec fn pow10(e: nat) -> nat
    decreases e,
{
    if e == 0 {
        1
    } else {
        10 * pow10((e - 1) as nat)
    }
}

/// `10^e`, pinned at `u64::MAX`.
pub open spec fn pow10_sat_spec(e: nat) -> nat {
    if pow10(e) <= u64::MAX {
        pow10(e)
    } else {
        u64::MAX as nat
    }
}

/// `10^e` is positive and grows with `e`.
pub proof fn lemma_pow10_monotone(a: nat, b: nat)
    requires
        a <= b,
    ensures
        1 <= pow10(a) <= pow10(b),
        a < b ==> pow10(a) < pow10(b),
    decreases b,
{
    if a < b {
        lemma_pow10_monotone(a, (b - 1) as nat);
    } else if b > 0 {
        lemma_pow10_monotone(0, (b - 1) as nat);
    }
}

/// `10^19` is the largest power of ten in `u64`.
pub proof fn lemma_pow10_fits(e: nat)
    requires
        e <= 19,
    ensures
        pow10(e) <= 10_000_000_000_000_000_000,
        pow10(e) < u64::MAX,
        pow10_sat_spec(e) == pow10(e),
{
    reveal_with_fuel(pow10, 20);
    lemma_pow10_monotone(e, 19);
}

/// `10^exp`, saturating at `u64::MAX` (exp ≤ 19 is exact;
/// [`Ladder::new`] rejects deeper tails).
fn pow10_sat(exp: u8) -> (r: u64)
    ensures
        r == pow10_sat_spec(exp as nat),
{
    let mut result = 1u64;
    let mut i = 0u8;
    while i < exp
        invariant
            i <= exp,
            result == pow10_sat_spec(i as nat),
        decreases exp - i,
    {
        result = match result.checked_mul(10) {
            Some(v) => v,
            None => u64::MAX,
        };
        i += 1;
    }
    result
}

/// One boundary of the band ladder, named by its CDF position.
///
/// - `Min` / `Max` — the ladder ends (CDF 0 and 1).
/// - `Z(k)` — fast tail: a fraction `10^-k` of samples at or
///   below it.
/// - `P(d)` — decile `d` in `1..=9`: a fraction `d/10` at or
///   below it.
/// - `N(k)` — slow tail: a fraction `10^-k` of samples above
///   it (n2 ≡ p99, n3 ≡ p99.9, …).
#[derive(Debug, Clone, Copy, PartialEq, Eq, Structural)]
pub enum Boundary {
    /// CDF 0 — below every sample.
    Min,
    /// Fast tail, fraction `10^-k` at or below.
    Z(u8),
    /// Decile `d` in `1..=9`, fraction `d/10` at or below.
    P(u8),
    /// Slow tail, fraction `10^-k` above.
    N(u8),
    /// CDF 1 — at or above every sample.
    Max,
}

/// The CDF fraction of a boundary as `(num, den)`.
pub open spec fn boundary_fraction(b: Boundary) -> (nat, nat) {
    match b {
        Boundary::Min => (0, 1),
        Boundary::Z(k) => (1, pow10_sat_spec(k as nat)),
        Boundary::P(d) => (d as nat, 10),
        Boundary::N(k) => ((pow10_sat_spec(k as nat) - 1) as nat, pow10_sat_spec(k as nat)),
        Boundary::Max => (1, 1),
    }
}

/// The rank of a boundary in a run of `total` samples,
/// `floor(total * num / den)` (before narrowing to u64).
pub open spec fn boundary_rank(b: Boundary, total: nat) -> nat {
    total * boundary_fraction(b).0 / boundary_fraction(b).1
}

impl Boundary {
    /// The boundary's CDF fraction as an exact rational
    /// `(num, den)`.
    pub fn fraction(&self) -> (r: (u64, u64))
        ensures
            r.0 == boundary_fraction(*self).0,
            r.1 == boundary_fraction(*self).1,
            r.1 >= 1,
    {
        match *self {
            Boundary::Min => (0, 1),
            Boundary::Z(k) => {
                proof {
                    lemma_pow10_monotone(0, k as nat);
                }
                (1, pow10_sat(k))
            },
            Boundary::P(d) => (d as u64, 10),
            Boundary::N(k) => {
                proof {
                    lemma_pow10_monotone(0, k as nat);
                }
                let den = pow10_sat(k);
                (den - 1, den)
            },
            Boundary::Max => (1, 1),
        }
    }

    /// The boundary's rank in a run of `total` samples:
    /// `floor(total * num / den)`, computed exactly in u128.
    pub fn rank(&self, total: u64) -> (r: u64)
        ensures
            r == boundary_rank(*self, total as nat) as u64,
    {
        let (num, den) = self.fraction();
        proof {
            lemma_mul_inequality(num as int, u64::MAX as int, total as int);
            lemma_mul_inequality(total as int, u64::MAX as int, u64::MAX as int);
            lemma_mul_is_commutative(num as int, total as int);
        }
        ((total as u128 * num as u128) / den as u128) as u64
    }
}


/// Number of boundaries of a ladder with tail depths `z`, `n`:
/// min + (z−1) z's + 9 deciles + (n−1) n's + max.
pub open spec fn ladder_len(z: nat, n: nat) -> nat {
    z + n + 9
}

/// The boundary at position `i` of the ladder
/// `min, z{z}..z2, p10..p90, n2..n{n}, max`; `None` past the end.
pub open spec fn ladder_at(z: nat, n: nat, i: nat) -> Option<Boundary> {
    if i == 0 {
        Some(Boundary::Min)
    } else if i < z {
        Some(Boundary::Z((z + 1 - i) as u8))
    } else if i < z + 9 {
        Some(Boundary::P((i + 1 - z) as u8))
    } else if i < z + n + 8 {
        Some(Boundary::N((i + 2 - z - 9) as u8))
    } else if i == z + n + 8 {
        Some(Boundary::Max)
    } else {
        None
    }
}

/// The tail depths a ladder accepts.
pub open spec fn valid_depths(z: nat, n: nat) -> bool {
    2 <= z <= 19 && 2 <= n <= 19
}

/// The boundary ladder, generated from its two tail depths:
/// `min, z{z_depth}..z2, p10..p90, n2..n{n_depth}, max`.
#[derive(Debug, Clone, Copy, PartialEq, Eq, Structural)]
pub struct Ladder {
    z_depth: u8,
    n_depth: u8,
}

impl Ladder {
    /// Fast-tail depth.
    pub closed spec fn z(self) -> nat {
        self.z_depth as nat
    }

    /// Slow-tail depth.
    pub closed spec fn n(self) -> nat {
        self.n_depth as nat
    }

    #[verifier::type_invariant]
    closed spec fn depths_valid(self) -> bool {
        valid_depths(self.z(), self.n())
    }

    /// Build a ladder; depths outside `2..=19` are rejected
    /// (`Error::BandDepth`).
    pub fn new(z_depth: u8, n_depth: u8) -> (r: Result<Ladder, Error>)
        ensures
            r is Ok <==> valid_depths(z_depth as nat, n_depth as nat),
            r matches Ok(l) ==> l.z() == z_depth && l.n() == n_depth,
            r matches Err(e) ==> e == Error::BandDepth,
    {
        if z_depth < 2 || z_depth > 19 || n_depth < 2 || n_depth > 19 {
            return Err(Error::BandDepth);
        }
        Ok(Ladder { z_depth, n_depth })
    }

    /// Fast-tail depth: the lowest tail boundary is `z{z_depth}`.
    pub fn z_depth(&self) -> (r: u8)
        ensures
            r == self.z(),
            valid_depths(self.z(), self.n()),
    {
        proof {
            use_type_invariant(self);
        }
        self.z_depth
    }

    /// Slow-tail depth: the highest tail boundary is `n{n_depth}`.
    pub fn n_depth(&self) -> (r: u8)
        ensures
            r == self.n(),
            valid_depths(self.z(), self.n()),
    {
        proof {
            use_type_invariant(self);
        }
        self.n_depth
    }

    /// Number of boundaries: min + (z_depth−1) z's + 9 deciles +
    /// (n_depth−1) n's + max.
    pub fn len(&self) -> (r: usize)
        ensures
            r == ladder_len(self.z(), self.n()),
            13 <= r <= 47,
    {
        proof {
            use_type_invariant(self);
        }
        (self.z_depth as usize - 1) + (self.n_depth as usize - 1) + 11
    }

    /// Never true — a valid ladder always has min, deciles, and
    /// max.
    pub fn is_empty(&self) -> (r: bool)
        ensures
            r == (ladder_len(self.z(), self.n()) == 0),
            !r,
    {
        false
    }

    /// Number of bands between the boundaries, `len() - 1`.
    pub fn band_count(&self) -> (r: usize)
        ensures
            r == ladder_len(self.z(), self.n()) - 1,
            12 <= r <= 46,
    {
        self.len() - 1
    }

    /// The boundary at `index` (ascending CDF), `None` past the
    /// end.
    pub fn get(&self, index: usize) -> (r: Option<Boundary>)
        ensures
            r == ladder_at(self.z(), self.n(), index as nat),
    {
        proof {
            use_type_invariant(self);
        }
        if index == 0 {
            return Some(Boundary::Min);
        }
        let mut idx = index - 1;
        let z_count = self.z_depth as usize - 1;
        if idx < z_count {
            return Some(Boundary::Z(self.z_depth - idx as u8));
        }
        idx -= z_count;
        if idx < 9 {
            return Some(Boundary::P(idx as u8 + 1));
        }
        idx -= 9;
        let n_count = self.n_depth as usize - 1;
        if idx < n_count {
            return Some(Boundary::N(idx as u8 + 2));
        }
        if idx == n_count {
            return Some(Boundary::Max);
        }
        None
    }

    /// Iterate the boundaries lowest-CDF first.
    pub fn iter(&self) -> (r: LadderIter)
        ensures
            r.spec_ladder() == *self,
            r.position() == 0,
    {
        LadderIter { ladder: *self, index: 0 }
    }
}


/// The rank of the fence capping band `i`: the rank of ladder
/// boundary `i + 1` in a run of `total`.
pub open spec fn fence(z: nat, n: nat, total: nat, i: nat) -> int {
    match ladder_at(z, n, i + 1) {
        Some(b) => boundary_rank(b, total) as int,
        None => 0,
    }
}

/// Ladder boundaries have fractions in `[0, 1]` with a
/// positive denominator.
pub proof fn lemma_ladder_fraction_bounds(z: nat, n: nat, i: nat)
    requires
        valid_depths(z, n),
        i < ladder_len(z, n),
    ensures
        ladder_at(z, n, i) is Some,
        boundary_fraction(ladder_at(z, n, i).unwrap()).1 >= 1,
        boundary_fraction(ladder_at(z, n, i).unwrap()).0 <= boundary_fraction(
            ladder_at(z, n, i).unwrap(),
        ).1,
        i == 0 ==> boundary_fraction(ladder_at(z, n, i).unwrap()) == (0nat, 1nat),
        i + 1 == ladder_len(z, n) ==> boundary_fraction(ladder_at(z, n, i).unwrap()) == (1nat, 1nat),
{
    if 1 <= i < z {
        lemma_pow10_fits((z + 1 - i) as nat);
        lemma_pow10_monotone(0, (z + 1 - i) as nat);
    } else if z + 9 <= i < z + n + 8 {
        lemma_pow10_fits((i + 2 - z - 9) as nat);
        lemma_pow10_monotone(0, (i + 2 - z - 9) as nat);
    }
}

/// Consecutive ladder fractions strictly increase:
/// `num_i * den_{i+1} < num_{i+1} * den_i`.
pub proof fn lemma_ladder_fraction_step(z: nat, n: nat, i: nat)
    requires
        valid_depths(z, n),
        i + 1 < ladder_len(z, n),
    ensures
        ({
            let (a, b) = boundary_fraction(ladder_at(z, n, i).unwrap());
            let (c, d) = boundary_fraction(ladder_at(z, n, i + 1).unwrap());
            a * d < c * b
        }),
{
    lemma_ladder_fraction_bounds(z, n, i);
    lemma_ladder_fraction_bounds(z, n, i + 1);
    let (a, b) = boundary_fraction(ladder_at(z, n, i).unwrap());
    let (c, d) = boundary_fraction(ladder_at(z, n, i + 1).unwrap());
    if i == 0 {
        assert(a == 0);
        assert(c >= 1);
        assert(a * d < c * b) by (nonlinear_arith)
            requires
                a == 0,
                c >= 1,
                b >= 1,
        ;
    } else if i + 1 < z {
        let k = (z + 1 - i) as nat;
        lemma_pow10_fits(k);
        lemma_pow10_fits((k - 1) as nat);
        lemma_pow10_monotone((k - 1) as nat, k);
        assert(a == 1 && c == 1);
        assert(b == pow10(k) && d == pow10((k - 1) as nat));
        assert(a * d < c * b) by (nonlinear_arith)
            requires
                a == 1,
                c == 1,
                d < b,
        ;
    } else if i + 1 == z {
        lemma_pow10_fits(2);
        reveal_with_fuel(pow10, 3);
        assert(a == 1 && b == 100 && c == 1 && d == 10);
        assert(a * d < c * b) by (nonlinear_arith)
            requires
                a == 1 && b == 100 && c == 1 && d == 10,
        ;
    } else if i + 1 < z + 9 {
        assert(b == 10 && d == 10);
        assert(c == a + 1);
        assert(a * d < c * b) by (nonlinear_arith)
            requires
                b == 10 && d == 10 && c == a + 1,
        ;
    } else if i + 1 == z + 9 {
        lemma_pow10_fits(2);
        reveal_with_fuel(pow10, 3);
        assert(a == 9 && b == 10 && c == 99 && d == 100);
        assert(a * d < c * b) by (nonlinear_arith)
            requires
                a == 9 && b == 10 && c == 99 && d == 100,
        ;
    } else if i + 1 < z + n + 8 {
        let k = (i + 2 - z - 9) as nat;
        lemma_pow10_fits(k);
        lemma_pow10_fits(k + 1);
        lemma_pow10_monotone(0, k);
        let p = pow10(k);
        assert(pow10(k + 1) == 10 * p);
        assert(a == p - 1 && b == p);
        assert(c == 10 * p - 1 && d == 10 * p);
        assert(a * d < c * b) by (nonlinear_arith)
            requires
                p >= 1,
                a == p - 1,
                b == p,
                c == 10 * p - 1,
                d == 10 * p,
        ;
    } else {
        lemma_pow10_fits(n);
        lemma_pow10_monotone(0, n);
        assert(c == 1 && d == 1);
        assert(a + 1 == b);
        assert(a * d < c * b) by (nonlinear_arith)
            requires
                c == 1 && d == 1 && a + 1 == b,
        ;
    }
}

/// Floors of ordered fractions of the same total are ordered.
pub proof fn lemma_floor_fraction_monotone(t: nat, a: nat, b: nat, c: nat, d: nat)
    requires
        b >= 1,
        d >= 1,
        a * d <= c * b,
    ensures
        t * a / b <= t * c / d,
{
    let q = t * a / b;
    lemma_fundamental_div_mod((t * a) as int, b as int);
    vstd::arithmetic::div_mod::lemma_mod_bound((t * a) as int, b as int);
    lemma_mul_is_commutative(q as int, b as int);
    assert(q * b <= t * a);
    assert(q * d * b <= t * c * b) by (nonlinear_arith)
        requires
            q * b <= t * a,
            a * d <= c * b,
            d >= 1,
    ;
    assert(q * d <= t * c) by (nonlinear_arith)
        requires
            q * d * b <= t * c * b,
            b >= 1,
    ;
    vstd::arithmetic::div_mod::lemma_div_is_ordered((q * d) as int, (t * c) as int, d as int);
    vstd::arithmetic::div_mod::lemma_div_by_multiple(q as int, d as int);
}

/// A fraction at most 1 of `t` is at most `t`.
pub proof fn lemma_floor_fraction_le_total(t: nat, a: nat, b: nat)
    requires
        b >= 1,
        a <= b,
    ensures
        t * a / b <= t,
{
    lemma_mul_inequality(a as int, b as int, t as int);
    lemma_mul_is_commutative(a as int, t as int);
    lemma_mul_is_commutative(b as int, t as int);
    vstd::arithmetic::div_mod::lemma_div_is_ordered((t * a) as int, (t * b) as int, b as int);
    vstd::arithmetic::div_mod::lemma_div_by_multiple(t as int, b as int);
}

/// Fences are ranks within `0..=total`, never decrease along the
/// bands, and the last fence (max) is `total`.
pub proof fn lemma_fences(z: nat, n: nat, total: nat, i: nat, j: nat)
    requires
        valid_depths(z, n),
        i <= j,
        j + 1 < ladder_len(z, n),
    ensures
        0 <= fence(z, n, total, i) <= fence(z, n, total, j) <= total,
        j + 2 == ladder_len(z, n) ==> fence(z, n, total, j) == total,
    decreases j - i,
{
    lemma_ladder_fraction_bounds(z, n, j + 1);
    let (c, d) = boundary_fraction(ladder_at(z, n, j + 1).unwrap());
    lemma_floor_fraction_le_total(total, c, d);
    if j + 2 == ladder_len(z, n) {
        vstd::arithmetic::div_mod::lemma_div_by_multiple(total as int, 1);
    }
    if i < j {
        lemma_fences(z, n, total, i, (j - 1) as nat);
        lemma_ladder_fraction_step(z, n, j);
        lemma_ladder_fraction_bounds(z, n, j);
        let (a, b) = boundary_fraction(ladder_at(z, n, j).unwrap());
        lemma_floor_fraction_monotone(total, a, b, c, d);
    }
}


/// A value pinned at `u128::MAX`.
pub open spec fn sat_u128(x: int) -> int {
    if x <= u128::MAX {
        x
    } else {
        u128::MAX as int
    }
}

/// `a * b` in u128, saturating.
fn sat_mul_u128(a: u128, b: u128) -> (r: u128)
    ensures
        r == sat_u128(a * b),
{
    match a.checked_mul(b) {
        Some(v) => v,
        None => u128::MAX,
    }
}

/// One band's accumulated stats. Band `i` spans the ranks
/// between boundaries `i` and `i+1` of its ladder — labeled by
/// the **upper** boundary, `(lower, upper]`.
///
/// - `first` / `last` — value bounds of the contributing
///   buckets (lowest bucket low, highest bucket high).
/// - `count` — occurrences assigned to this band.
/// - `low_mass` / `high_mass` — `Σ count · low` and
///   `Σ count · high` over the contributing buckets, exact; the
///   bucket-midpoint weighted mean is
///   `(low_mass + high_mass) / (2 · count)`. Each fits a u128
///   whenever `count` fits a u64 (see [`mass_bounded`]).
#[derive(Debug, Clone, Copy, PartialEq, Eq, Structural)]
pub struct Band {
    /// Low end of the first contributing bucket's range.
    pub first: u64,
    /// High end of the last contributing bucket's range.
    pub last: u64,
    /// Occurrences assigned to this band.
    pub count: u64,
    /// Sum of each contribution's count times its bucket's low end.
    pub low_mass: u128,
    /// Sum of each contribution's count times its bucket's high end.
    pub high_mass: u128,
}

/// The empty band.
pub open spec fn empty_band() -> Band {
    Band { first: 0, last: 0, count: 0, low_mass: 0, high_mass: 0 }
}

impl Default for Band {
    /// An empty band.
    fn default() -> (r: Band)
        ensures
            r == empty_band(),
    {
        Band { first: 0, last: 0, count: 0, low_mass: 0, high_mass: 0 }
    }
}

/// A band's masses are at most what `count` values of
/// `u64::MAX` would weigh — true of every band a pass builds, and
/// what keeps the next fold's masses inside u128.
pub open spec fn mass_bounded(b: Band) -> bool {
    &&& b.low_mass <= b.count * u64::MAX
    &&& b.high_mass <= b.count * u64::MAX
}

/// The band after folding `c` occurrences from a bucket spanning
/// `low..=high` into it.
pub open spec fn folded(b: Band, low: u64, high: u64, c: nat) -> Band {
    Band {
        first: if b.count == 0 {
            low
        } else {
            b.first
        },
        last: high,
        count: (b.count + c) as u64,
        low_mass: (b.low_mass + c * low) as u128,
        high_mass: (b.high_mass + c * high) as u128,
    }
}

/// Folding `c <= count` occurrences from a bucket into a band
/// fits wherever folding the bucket's whole `count` does.
pub proof fn lemma_fold_fits(b: Band, low: u64, high: u64, c: nat, count: nat)
    requires
        c <= count,
        b.count + count <= u64::MAX,
        b.low_mass + count * low <= u128::MAX,
        b.high_mass + count * high <= u128::MAX,
    ensures
        b.count + c <= u64::MAX,
        b.low_mass + c * low <= u128::MAX,
        b.high_mass + c * high <= u128::MAX,
{
    lemma_mul_inequality(c as int, count as int, low as int);
    lemma_mul_inequality(c as int, count as int, high as int);
}

/// A mass-bounded band can take any bucket its count allows, and
/// stays mass-bounded.
pub proof fn lemma_fold_bounded(b: Band, low: u64, high: u64, c: nat)
    requires
        mass_bounded(b),
        b.count + c <= u64::MAX,
    ensures
        b.low_mass + c * low <= u128::MAX,
        b.high_mass + c * high <= u128::MAX,
        mass_bounded(folded(b, low, high, c)),
{
    let m = u64::MAX as int;
    lemma_mul_inequality(c as int, m, low as int);
    lemma_mul_inequality(low as int, m, c as int);
    lemma_mul_inequality(high as int, m, c as int);
    assert(b.count * m + c * m == (b.count + c) * m) by (nonlinear_arith);
    assert((b.count + c) * m <= m * m) by (nonlinear_arith)
        requires
            b.count + c <= m,
            m >= 0,
    ;
    assert(m * m <= u128::MAX) by (nonlinear_arith)
        requires
            m == u64::MAX,
    ;
    assert(c * low <= c * m) by (nonlinear_arith)
        requires
            low <= m,
    ;
    assert(c * high <= c * m) by (nonlinear_arith)
        requires
            high <= m,
    ;
}

impl Band {
    /// Fold `count` occurrences from a bucket spanning
    /// `low..=high` into this band.
    pub fn fold(&mut self, low: u64, high: u64, count: u64)
        requires
            old(self).count + count <= u64::MAX,
            old(self).low_mass + count * low <= u128::MAX,
            old(self).high_mass + count * high <= u128::MAX,
        ensures
            *final(self) == folded(*old(self), low, high, count as nat),
    {
        if self.count == 0 {
            self.first = low;
        }
        self.last = high;
        self.count = self.count + count;
        assert((count as u128) * (low as u128) <= u64::MAX * u64::MAX) by (nonlinear_arith)
            requires
                count <= u64::MAX,
                low <= u64::MAX,
        ;
        assert((count as u128) * (high as u128) <= u64::MAX * u64::MAX) by (nonlinear_arith)
            requires
                count <= u64::MAX,
                high <= u64::MAX,
        ;
        self.low_mass = self.low_mass + (count as u128) * (low as u128);
        self.high_mass = self.high_mass + (count as u128) * (high as u128);
    }
}

/// Distribute one bucket's counts into a ladder's bands.
///
/// - Called once per bucket, ascending, over one full pass of a
///   histogram's bucket walk; an implementation may keep walk
///   state, so use a fresh value per pass.
/// - `bands.len()` should be `ladder.band_count()`; band `i` is
///   capped by boundary `i + 1`.
pub trait BandAssign: Sized {
    /// The assigner's walk state and the bands after folding
    /// `bucket` into `bands`.
    spec fn assigned(self, bucket: Bucket, total: u64, ladder: Ladder, bands: Seq<Band>) -> (
        Self,
        Seq<Band>,
    );

    /// The convention's name, so a report can say which one
    /// assembled it.
    fn name(&self) -> (r: &'static str);

    /// Fold `bucket` into `bands`.
    fn assign(&mut self, bucket: &Bucket, total: u64, ladder: &Ladder, bands: &mut [Band])
        requires
            bucket.count <= bucket.cumulative,
            bucket.count == 0 || total == 0 || old(bands)@.len() > 0,
            forall|i: int|
                0 <= i < old(bands)@.len() ==> #[trigger] old(bands)@[i].count + bucket.count
                    <= u64::MAX && old(bands)@[i].low_mass + bucket.count * bucket.low
                    <= u128::MAX && old(bands)@[i].high_mass + bucket.count * bucket.high
                    <= u128::MAX,
        ensures
            final(bands)@.len() == old(bands)@.len(),
            sum_counts(band_counts(final(bands)@)) <= sum_counts(band_counts(old(bands)@))
                + bucket.count,
            (forall|i: int| 0 <= i < old(bands)@.len() ==> mass_bounded(#[trigger] old(bands)@[i]))
                ==> forall|i: int|
                0 <= i < final(bands)@.len() ==> mass_bounded(#[trigger] final(bands)@[i]),
            (*final(self), final(bands)@) == (*old(self)).assigned(
                *bucket,
                total,
                *ladder,
                old(bands)@,
            ),
    ;
}

/// The assigner's state and the bands after it folds every
/// bucket of `buckets`, in order, into `bands`.
pub open spec fn assign_pass<A: BandAssign>(
    assigner: A,
    total: u64,
    ladder: Ladder,
    bands: Seq<Band>,
    buckets: Seq<Bucket>,
) -> (A, Seq<Band>)
    decreases buckets.len(),
{
    if buckets.len() == 0 {
        (assigner, bands)
    } else {
        let prev = assign_pass(assigner, total, ladder, bands, buckets.drop_last());
        prev.0.assigned(buckets.last(), total, ladder, prev.1)
    }
}

/// Number of integers `r` with `a <= r <= b` and `lo < r <= hi`.
pub open spec fn span(a: int, b: int, lo: int, hi: int) -> nat {
    let top = if b < hi {
        b
    } else {
        hi
    };
    let bottom = if a - 1 > lo {
        a - 1
    } else {
        lo
    };
    if top > bottom {
        (top - bottom) as nat
    } else {
        0
    }
}

/// Bands a pass over `ladder` can fill in a slice of `len`.
pub open spec fn active_bands(z: nat, n: nat, len: nat) -> nat {
    if len < ladder_len(z, n) - 1 {
        len
    } else {
        (ladder_len(z, n) - 1) as nat
    }
}

/// Ranks of `start..=end` that `RankSplit` gives band `i` when
/// its walk stands at band `b0`: the ranks above band `i`'s
/// lower fence (above `start - 1` for band `b0` itself) up to
/// its upper fence.
pub open spec fn split_share(
    z: nat,
    n: nat,
    total: nat,
    b0: nat,
    start: int,
    end: int,
    i: nat,
) -> nat {
    if i < b0 {
        0
    } else if i == b0 {
        span(start, end, start - 1, fence(z, n, total, i))
    } else {
        span(start, end, fence(z, n, total, (i - 1) as nat), fence(z, n, total, i))
    }
}

/// Where `RankSplit`'s walk stands after a bucket ending at rank
/// `end`: past every band whose fence lies below `end`, and past
/// the band whose fence is `end` itself.
pub open spec fn split_next(z: nat, n: nat, total: nat, m: nat, end: int, b: nat) -> nat
    decreases m - b,
{
    if b >= m {
        b
    } else if fence(z, n, total, b) > end {
        b
    } else if fence(z, n, total, b) == end {
        b + 1
    } else {
        split_next(z, n, total, m, end, b + 1)
    }
}


/// The shares `RankSplit` hands the bands of a slice of `len`
/// for one bucket: `split_share` on the active bands, 0 beyond.
pub open spec fn split_shares(
    z: nat,
    n: nat,
    total: nat,
    b0: nat,
    start: int,
    end: int,
    len: nat,
) -> Seq<nat> {
    Seq::new(
        len,
        |i: int|
            if i < active_bands(z, n, len) {
                split_share(z, n, total, b0, start, end, i as nat)
            } else {
                0
            },
    )
}

/// Shares of the first `k` bands telescope to the ranks of the
/// bucket up to fence `k - 1`.
proof fn lemma_split_shares_prefix(
    z: nat,
    n: nat,
    total: nat,
    b0: nat,
    start: int,
    end: int,
    len: nat,
    k: nat,
)
    requires
        valid_depths(z, n),
        1 <= start <= end,
        k <= active_bands(z, n, len),
    ensures
        sum_counts(split_shares(z, n, total, b0, start, end, len).take(k as int)) == if k <= b0 {
            0
        } else {
            let top = if end < fence(z, n, total, (k - 1) as nat) {
                end
            } else {
                fence(z, n, total, (k - 1) as nat)
            };
            if top > start - 1 {
                (top - (start - 1)) as nat
            } else {
                0
            }
        },
    decreases k,
{
    let sh = split_shares(z, n, total, b0, start, end, len);
    if k == 0 {
        assert(sh.take(0) =~= Seq::<nat>::empty());
    } else {
        lemma_split_shares_prefix(z, n, total, b0, start, end, len, (k - 1) as nat);
        lemma_sum_take_step(sh, (k - 1) as int);
        if k >= 2 {
            lemma_fences(z, n, total, (k - 2) as nat, (k - 1) as nat);
        }
        lemma_fences(z, n, total, (k - 1) as nat, (k - 1) as nat);
    }
}

/// Elementwise sums add up.
pub proof fn lemma_sum_add(a: Seq<nat>, b: Seq<nat>)
    requires
        a.len() == b.len(),
    ensures
        sum_counts(Seq::new(a.len(), |i: int| a[i] + b[i])) == sum_counts(a) + sum_counts(b),
    decreases a.len(),
{
    let c = Seq::new(a.len(), |i: int| a[i] + b[i]);
    if a.len() > 0 {
        lemma_sum_add(a.drop_last(), b.drop_last());
        assert(c.drop_last() =~= Seq::new(
            a.drop_last().len(),
            |i: int| a.drop_last()[i] + b.drop_last()[i],
        ));
    }
}

/// A bucket's shares never exceed its ranks.
proof fn lemma_split_shares_bounded(
    z: nat,
    n: nat,
    total: nat,
    b0: nat,
    start: int,
    end: int,
    len: nat,
)
    requires
        valid_depths(z, n),
        1 <= start <= end,
    ensures
        sum_counts(split_shares(z, n, total, b0, start, end, len)) <= end - start + 1,
{
    let sh = split_shares(z, n, total, b0, start, end, len);
    let m = active_bands(z, n, len);
    lemma_split_shares_prefix(z, n, total, b0, start, end, len, m);
    // The shares past the active bands are all 0.
    assert forall|k: nat| m <= k <= len implies #[trigger] sum_counts(sh.take(k as int))
        == sum_counts(sh.take(m as int)) by {
        lemma_zero_tail(sh, m, k);
    }
    assert(sh.take(len as int) =~= sh);
}

/// Zero entries add nothing to a prefix sum.
proof fn lemma_zero_tail(s: Seq<nat>, m: nat, k: nat)
    requires
        m <= k <= s.len(),
        forall|i: int| m <= i < s.len() ==> #[trigger] s[i] == 0,
    ensures
        sum_counts(s.take(k as int)) == sum_counts(s.take(m as int)),
    decreases k - m,
{
    if k > m {
        lemma_zero_tail(s, m, (k - 1) as nat);
        lemma_sum_take_step(s, (k - 1) as int);
    }
}

/// The bands after `RankSplit`, standing at band `b0`, folds
/// `bucket`: every active band with a positive share takes it.
pub open spec fn rank_split_bands(
    z: nat,
    n: nat,
    total: nat,
    b0: nat,
    bucket: Bucket,
    bands: Seq<Band>,
) -> Seq<Band> {
    if bucket.count == 0 {
        bands
    } else {
        Seq::new(
            bands.len(),
            |i: int|
                if i < active_bands(z, n, bands.len()) && split_share(
                    z,
                    n,
                    total,
                    b0,
                    bucket.cumulative - bucket.count + 1,
                    bucket.cumulative as int,
                    i as nat,
                ) > 0 {
                    folded(
                        bands[i],
                        bucket.low,
                        bucket.high,
                        split_share(
                            z,
                            n,
                            total,
                            b0,
                            bucket.cumulative - bucket.count + 1,
                            bucket.cumulative as int,
                            i as nat,
                        ),
                    )
                } else {
                    bands[i]
                },
        )
    }
}

/// Every `RankSplit` share fits where the whole bucket does, so
/// its folds keep every band mass-bounded.
proof fn lemma_rank_split_bands_bounded(
    z: nat,
    n: nat,
    total: nat,
    b0: nat,
    bucket: Bucket,
    bands: Seq<Band>,
)
    requires
        bucket.count <= bucket.cumulative,
        forall|i: int|
            0 <= i < bands.len() ==> #[trigger] bands[i].count + bucket.count <= u64::MAX,
    ensures
        (forall|i: int| 0 <= i < bands.len() ==> mass_bounded(#[trigger] bands[i])) ==> forall|
            i: int,
        | 0 <= i < bands.len() ==> mass_bounded(
            #[trigger] rank_split_bands(z, n, total, b0, bucket, bands)[i],
        ),
{
    if forall|i: int| 0 <= i < bands.len() ==> mass_bounded(#[trigger] bands[i]) {
        assert forall|i: int| 0 <= i < bands.len() implies mass_bounded(
            #[trigger] rank_split_bands(z, n, total, b0, bucket, bands)[i],
        ) by {
            if bucket.count > 0 {
                let share = split_share(
                    z,
                    n,
                    total,
                    b0,
                    bucket.cumulative - bucket.count + 1,
                    bucket.cumulative as int,
                    i as nat,
                );
                assert(share <= bucket.count);
                assert(mass_bounded(bands[i]));
                lemma_fold_bounded(bands[i], bucket.low, bucket.high, share);
            }
        }
    }
}

/// Exact rank-split assignment.
///
/// A bucket's rank span `(cumulative - count, cumulative]` is
/// split across every fence it crosses, so band counts are
/// exact rank spans.
#[derive(Debug)]
pub struct RankSplit {
    band_index: usize,
}

impl Default for RankSplit {
    /// Fresh walk state for one pass.
    fn default() -> (r: RankSplit)
        ensures
            r.spec_band_index() == 0,
    {
        RankSplit { band_index: 0 }
    }
}

impl RankSplit {
    /// The band the walk stands at.
    pub closed spec fn spec_band_index(self) -> nat {
        self.band_index as nat
    }

    /// Fresh walk state for one pass.
    pub fn new() -> (r: RankSplit)
        ensures
            r.spec_band_index() == 0,
    {
        RankSplit { band_index: 0 }
    }
}

impl BandAssign for RankSplit {
    closed spec fn assigned(self, bucket: Bucket, total: u64, ladder: Ladder, bands: Seq<Band>) -> (
        RankSplit,
        Seq<Band>,
    ) {
        if bucket.count == 0 {
            (self, bands)
        } else {
            (
                RankSplit {
                    band_index: split_next(
                        ladder.z(),
                        ladder.n(),
                        total as nat,
                        active_bands(ladder.z(), ladder.n(), bands.len()),
                        bucket.cumulative as int,
                        self.band_index as nat,
                    ) as usize,
                },
                rank_split_bands(
                    ladder.z(),
                    ladder.n(),
                    total as nat,
                    self.band_index as nat,
                    bucket,
                    bands,
                ),
            )
        }
    }

    /// `"rank-split"`.
    fn name(&self) -> (r: &'static str)
        ensures
            r@ == "rank-split"@,
    {
        "rank-split"
    }

    #[verifier::rlimit(50)]
    fn assign(&mut self, bucket: &Bucket, total: u64, ladder: &Ladder, bands: &mut [Band])
        ensures
            bucket.count == 0 ==> final(bands)@ == old(bands)@ && final(self).spec_band_index()
                == old(self).spec_band_index(),
            bucket.count > 0 ==> forall|i: int|
                0 <= i < old(bands)@.len() ==> #[trigger] final(bands)@[i] == if i
                    < active_bands(ladder.z(), ladder.n(), old(bands)@.len() as nat)
                    && split_share(
                    ladder.z(),
                    ladder.n(),
                    total as nat,
                    old(self).spec_band_index(),
                    bucket.cumulative - bucket.count + 1,
                    bucket.cumulative as int,
                    i as nat,
                ) > 0 {
                    folded(
                        old(bands)@[i],
                        bucket.low,
                        bucket.high,
                        split_share(
                            ladder.z(),
                            ladder.n(),
                            total as nat,
                            old(self).spec_band_index(),
                            bucket.cumulative - bucket.count + 1,
                            bucket.cumulative as int,
                            i as nat,
                        ),
                    )
                } else {
                    old(bands)@[i]
                },
            bucket.count > 0 ==> final(self).spec_band_index() == split_next(
                ladder.z(),
                ladder.n(),
                total as nat,
                active_bands(ladder.z(), ladder.n(), old(bands)@.len() as nat),
                bucket.cumulative as int,
                old(self).spec_band_index(),
            ),
    {
        if bucket.count == 0 {
            return;
        }
        let ghost z = ladder.z();
        let ghost n = ladder.n();
        let ghost t = total as nat;
        let ghost b0 = self.band_index as nat;
        let ghost old_bands = bands@;
        let ghost m = active_bands(z, n, bands@.len() as nat);
        let start = bucket.cumulative - bucket.count + 1;
        let end = bucket.cumulative;
        proof {
            use_type_invariant(ladder);
        }

        // Ranks are walked in u128 so the step past a rank of
        // `u64::MAX` cannot wrap.
        let mut seg_start: u128 = start as u128;
        while seg_start <= end as u128 && self.band_index < bands.len()
            invariant
                valid_depths(z, n),
                z == ladder.z(),
                n == ladder.n(),
                t == total,
                m == active_bands(z, n, old_bands.len() as nat),
                bands@.len() == old_bands.len(),
                start == bucket.cumulative - bucket.count + 1,
                end == bucket.cumulative,
                1 <= start <= end,
                b0 <= self.band_index,
                self.band_index <= b0 || self.band_index <= m,
                start <= seg_start <= end + 1,
                seg_start <= end ==> seg_start == if self.band_index == b0 {
                    start as int
                } else if start > fence(z, n, t, (self.band_index - 1) as nat) + 1 {
                    start as int
                } else {
                    fence(z, n, t, (self.band_index - 1) as nat) + 1
                },
                seg_start > end ==> (self.band_index > b0 && fence(
                    z,
                    n,
                    t,
                    (self.band_index - 1) as nat,
                ) == end) || (self.band_index < m && fence(z, n, t, self.band_index as nat)
                    > end),
                split_next(z, n, t, m, end as int, b0) == if seg_start > end {
                    self.band_index as nat
                } else {
                    split_next(z, n, t, m, end as int, self.band_index as nat)
                },
                forall|i: int|
                    0 <= i < old_bands.len() ==> #[trigger] old_bands[i].count + bucket.count
                        <= u64::MAX && old_bands[i].low_mass + bucket.count * bucket.low
                        <= u128::MAX && old_bands[i].high_mass + bucket.count * bucket.high
                        <= u128::MAX,
                forall|i: int|
                    0 <= i < bands@.len() ==> #[trigger] bands@[i] == if i < m && (i
                        < self.band_index || (i == self.band_index && seg_start > end))
                        && split_share(z, n, t, b0, start as int, end as int, i as nat) > 0 {
                        folded(
                            old_bands[i],
                            bucket.low,
                            bucket.high,
                            split_share(z, n, t, b0, start as int, end as int, i as nat),
                        )
                    } else {
                        old_bands[i]
                    },
            ensures
                seg_start > end || self.band_index >= m,
            decreases end + 1 - seg_start, bands@.len() - self.band_index,
        {
            let bi = self.band_index;
            let upper = match ladder.get(bi + 1) {
                Some(b) => b,
                None => {
                    assert(bi + 1 >= ladder_len(z, n));
                    break;
                },
            };
            let band_end = upper.rank(total);
            proof {
                lemma_fences(z, n, t, bi as nat, bi as nat);
                if bi > b0 {
                    lemma_fences(z, n, t, (bi - 1) as nat, bi as nat);
                }
            }
            if (band_end as u128) < seg_start {
                self.band_index = bi + 1;
                continue;
            }
            let seg_end = if end < band_end {
                end
            } else {
                band_end
            };
            let share = seg_end - seg_start as u64 + 1;
            assert(share == split_share(z, n, t, b0, start as int, end as int, bi as nat));
            let mut band = bands[bi];
            proof {
                assert(band == old_bands[bi as int]);
                assert(old_bands[bi as int].count + bucket.count <= u64::MAX);
                lemma_fold_fits(band, bucket.low, bucket.high, share as nat, bucket.count as nat);
            }
            band.fold(bucket.low, bucket.high, share);
            bands[bi] = band;
            if seg_end == band_end {
                self.band_index = bi + 1;
            }
            seg_start = seg_end as u128 + 1;
        }
        proof {
            let bi = self.band_index as nat;
            assert forall|i: int| 0 <= i < bands@.len() implies #[trigger] bands@[i] == if i < m
                && split_share(z, n, t, b0, start as int, end as int, i as nat) > 0 {
                folded(
                    old_bands[i],
                    bucket.low,
                    bucket.high,
                    split_share(z, n, t, b0, start as int, end as int, i as nat),
                )
            } else {
                old_bands[i]
            } by {
                if i < m && i > bi && seg_start > end {
                    if bi > b0 && fence(z, n, t, (bi - 1) as nat) == end {
                        lemma_fences(z, n, t, (bi - 1) as nat, (i - 1) as nat);
                    } else {
                        lemma_fences(z, n, t, bi, (i - 1) as nat);
                    }
                    lemma_fences(z, n, t, (i - 1) as nat, i as nat);
                    assert(split_share(z, n, t, b0, start as int, end as int, i as nat) == 0);
                }
            }
            let shares = split_shares(z, n, t, b0, start as int, end as int, old_bands.len() as nat);
            lemma_split_shares_bounded(z, n, t, b0, start as int, end as int, old_bands.len() as nat);
            lemma_sum_add(band_counts(old_bands), shares);
            assert(band_counts(bands@) =~= Seq::new(
                old_bands.len(),
                |i: int| band_counts(old_bands)[i] + shares[i],
            ));
            assert(bands@ =~= rank_split_bands(z, n, t, b0, *bucket, old_bands));
            lemma_rank_split_bands_bounded(z, n, t, b0, *bucket, old_bands);
            if b0 <= m {
                lemma_split_next_passes(z, n, t, m, end as int, b0);
            }
        }
    }
}


/// Whether a mid-rank `mid2 / (2 * total)` lies at or below the
/// fence fraction `num / den`, compared by cross-multiplying in
/// u128 with saturating products.
pub open spec fn mid_at_or_below(mid2: nat, total: nat, num: nat, den: nat) -> bool {
    sat_u128((mid2 * den) as int) <= sat_u128((2 * total * num) as int)
}

/// The band `MidRank` picks, searching from band `index`: the
/// first band whose upper fence is at or above the mid-rank,
/// else the last band of `len`.
pub open spec fn mid_band(z: nat, n: nat, total: nat, mid2: nat, len: nat, index: nat) -> nat
    decreases len - index,
{
    if index >= len {
        (len - 1) as nat
    } else if ladder_at(z, n, index + 1) is Some && mid_at_or_below(
        mid2,
        total,
        boundary_fraction(ladder_at(z, n, index + 1).unwrap()).0,
        boundary_fraction(ladder_at(z, n, index + 1).unwrap()).1,
    ) {
        index
    } else {
        mid_band(z, n, total, mid2, len, index + 1)
    }
}

/// The searched band lies within the slice.
pub proof fn lemma_mid_band_in_range(z: nat, n: nat, total: nat, mid2: nat, len: nat, index: nat)
    requires
        len > 0,
        index <= len,
    ensures
        index <= mid_band(z, n, total, mid2, len, index) < len || (index == len && mid_band(
            z,
            n,
            total,
            mid2,
            len,
            index,
        ) == len - 1),
    decreases len - index,
{
    if index < len {
        lemma_mid_band_in_range(z, n, total, mid2, len, index + 1);
    }
}

/// Whether the bucket with doubled mid-rank numerator `mid2`
/// lies at or below band `i`'s upper boundary `num/den` in a run
/// of `total`: `mid2 · den <= 2 · total · num`, products
/// saturating at `u128::MAX`.
pub open spec fn under_upper_boundary(z: nat, n: nat, total: nat, mid2: nat, i: nat) -> bool {
    &&& ladder_at(z, n, i + 1) is Some
    &&& sat_u128((mid2 * boundary_fraction(ladder_at(z, n, i + 1).unwrap()).1) as int) <= sat_u128(
        (2 * total * boundary_fraction(ladder_at(z, n, i + 1).unwrap()).0) as int,
    )
}

/// The search from band `index` stops at the first band whose
/// upper boundary the mid-rank does not pass, else at the last.
proof fn lemma_mid_band_first(z: nat, n: nat, total: nat, mid2: nat, len: nat, index: nat)
    requires
        index < len,
    ensures
        index <= mid_band(z, n, total, mid2, len, index) < len,
        forall|i: nat|
            index <= i < mid_band(z, n, total, mid2, len, index) ==> !#[trigger] under_upper_boundary(
                z,
                n,
                total,
                mid2,
                i,
            ),
        under_upper_boundary(z, n, total, mid2, mid_band(z, n, total, mid2, len, index)) || (
        mid_band(z, n, total, mid2, len, index) == len - 1 && forall|i: nat|
            index <= i < len ==> !#[trigger] under_upper_boundary(z, n, total, mid2, i)),
    decreases len - index,
{
    let here = ladder_at(z, n, index + 1) is Some && mid_at_or_below(
        mid2,
        total,
        boundary_fraction(ladder_at(z, n, index + 1).unwrap()).0,
        boundary_fraction(ladder_at(z, n, index + 1).unwrap()).1,
    );
    assert(here == under_upper_boundary(z, n, total, mid2, index));
    if here {
        assert(mid_band(z, n, total, mid2, len, index) == index);
    } else {
        assert(mid_band(z, n, total, mid2, len, index) == mid_band(z, n, total, mid2, len, index + 1));
        if index + 1 < len {
            lemma_mid_band_first(z, n, total, mid2, len, index + 1);
            assert forall|i: nat|
                index <= i < mid_band(z, n, total, mid2, len, index) implies !#[trigger] under_upper_boundary(
                z,
                n,
                total,
                mid2,
                i,
            ) by {
                if i > index {
                    assert(index + 1 <= i);
                }
            }
        } else {
            assert(mid_band(z, n, total, mid2, len, index + 1) == len - 1);
        }
    }
}

/// MidRank puts a whole bucket in the first band whose upper
/// boundary fraction is at or above the bucket's Hazen mid-rank
/// (`mid2 = 2 · cumulative - count` is twice its numerator over
/// `2 · total`), bands right-closed; where no band's boundary
/// is, the last band takes it. Only that band changes: it folds
/// the bucket's whole count. A mid-rank at or below boundary 1's
/// fraction lands in band 0.
pub proof fn lemma_mid_rank_first_band(
    a: MidRank,
    bucket: Bucket,
    total: u64,
    ladder: Ladder,
    bands: Seq<Band>,
)
    requires
        bucket.count > 0,
        total > 0,
        bands.len() > 0,
        bucket.count <= bucket.cumulative,
    ensures
        ({
            let z = ladder.z();
            let n = ladder.n();
            let mid2 = (2 * bucket.cumulative - bucket.count) as nat;
            exists|j: int|
                0 <= j < bands.len() && a.assigned(bucket, total, ladder, bands).1 == bands.update(
                    j,
                    folded(bands[j], bucket.low, bucket.high, bucket.count as nat),
                ) && (forall|i: nat|
                    i < j ==> !#[trigger] under_upper_boundary(z, n, total as nat, mid2, i)) && (
                under_upper_boundary(z, n, total as nat, mid2, j as nat) || (j == bands.len() - 1
                    && forall|i: nat|
                    i < bands.len() ==> !#[trigger] under_upper_boundary(
                        z,
                        n,
                        total as nat,
                        mid2,
                        i,
                    )))
        }),
{
    let z = ladder.z();
    let n = ladder.n();
    let mid2 = (2 * bucket.cumulative - bucket.count) as nat;
    let len = bands.len();
    lemma_mid_band_first(z, n, total as nat, mid2, len, 0);
    let j = mid_band(z, n, total as nat, mid2, len, 0) as int;
    assert(a.assigned(bucket, total, ladder, bands).1 == bands.update(
        j,
        folded(bands[j], bucket.low, bucket.high, bucket.count as nat),
    ));
}

/// Whole-bucket mid-rank assignment.
///
/// Each bucket goes wholly to the band containing its Hazen
/// mid-rank `(cumulative_before + count/2) / total`, bands
/// right-closed `(lower, upper]` — a rank exactly on a fence
/// falls in the band that fence caps. The comparison is done in
/// integers (u128 cross-multiply against the fence rational).
#[derive(Debug)]
pub struct MidRank;

impl Default for MidRank {
    /// Fresh (stateless) assigner.
    fn default() -> (r: MidRank) {
        MidRank
    }
}

impl MidRank {
    /// Fresh (stateless) assigner for one pass.
    pub fn new() -> (r: MidRank) {
        MidRank
    }
}

impl BandAssign for MidRank {
    open spec fn assigned(self, bucket: Bucket, total: u64, ladder: Ladder, bands: Seq<Band>) -> (
        MidRank,
        Seq<Band>,
    ) {
        if bucket.count == 0 || total == 0 {
            (self, bands)
        } else {
            let index = mid_band(
                ladder.z(),
                ladder.n(),
                total as nat,
                (2 * bucket.cumulative - bucket.count) as nat,
                bands.len(),
                0,
            );
            (self, bands.update(index as int, folded(bands[index as int], bucket.low, bucket.high, bucket.count as nat)))
        }
    }

    /// `"mid-rank"`.
    fn name(&self) -> (r: &'static str)
        ensures
            r@ == "mid-rank"@,
    {
        "mid-rank"
    }

    fn assign(&mut self, bucket: &Bucket, total: u64, ladder: &Ladder, bands: &mut [Band])
        ensures
            bucket.count == 0 || total == 0 ==> final(bands)@ == old(bands)@,
            bucket.count > 0 && total > 0 ==> final(bands)@ == old(bands)@.update(
                mid_band(
                    ladder.z(),
                    ladder.n(),
                    total as nat,
                    (2 * bucket.cumulative - bucket.count) as nat,
                    old(bands)@.len() as nat,
                    0,
                ) as int,
                folded(
                    old(bands)@[mid_band(
                        ladder.z(),
                        ladder.n(),
                        total as nat,
                        (2 * bucket.cumulative - bucket.count) as nat,
                        old(bands)@.len() as nat,
                        0,
                    ) as int],
                    bucket.low,
                    bucket.high,
                    bucket.count as nat,
                ),
            ),
    {
        if bucket.count == 0 || total == 0 {
            return;
        }
        let ghost z = ladder.z();
        let ghost n = ladder.n();
        let ghost len = bands@.len() as nat;
        // Twice the mid-rank numerator: 2*(cum_before) + count.
        let mid2 = (2 * bucket.cumulative as u128) - bucket.count as u128;
        // First band whose upper fence is at or above the
        // mid-rank; the last band is the fallback.
        let mut band_index = bands.len() - 1;
        let mut index: usize = 0;
        while index < bands.len()
            invariant_except_break
                band_index == len - 1,
            invariant
                len == bands@.len(),
                len > 0,
                index <= len,
                z == ladder.z(),
                n == ladder.n(),
                mid_band(z, n, total as nat, mid2 as nat, len, 0) == mid_band(
                    z,
                    n,
                    total as nat,
                    mid2 as nat,
                    len,
                    index as nat,
                ),
            ensures
                band_index == mid_band(z, n, total as nat, mid2 as nat, len, 0),
            decreases len - index,
        {
            if let Some(upper) = ladder.get(index + 1) {
                let (num, den) = upper.fraction();
                // mid2 / (2*total) <= num / den, cross-multiplied.
                let lhs = sat_mul_u128(mid2, den as u128);
                let rhs = sat_mul_u128(2 * total as u128, num as u128);
                if lhs <= rhs {
                    band_index = index;
                    break;
                }
            }
            index += 1;
        }
        proof {
            lemma_mid_band_in_range(z, n, total as nat, mid2 as nat, len, 0);
        }
        let mut band = bands[band_index];
        band.fold(bucket.low, bucket.high, bucket.count);
        bands[band_index] = band;
        proof {
            lemma_mid_rank_conserves(old(bands)@, band_index as int, bucket.low, bucket.high, bucket.count as nat);
            if forall|i: int| 0 <= i < old(bands)@.len() ==> mass_bounded(#[trigger] old(bands)@[i]) {
                assert(mass_bounded(old(bands)@[band_index as int]));
                lemma_fold_bounded(
                    old(bands)@[band_index as int],
                    bucket.low,
                    bucket.high,
                    bucket.count as nat,
                );
            }
        }
    }
}


/// Each bucket of `buckets` starts right after the previous one
/// ends: its ranks `(cumulative - count, cumulative]` follow on
/// from the previous bucket's (and from 0 for the first).
pub open spec fn consistent_walk(buckets: Seq<Bucket>) -> bool {
    forall|k: int|
        0 <= k < buckets.len() ==> #[trigger] buckets[k].count <= buckets[k].cumulative
            && buckets[k].cumulative - buckets[k].count == if k == 0 {
            0
        } else {
            buckets[k - 1].cumulative as int
        }
}

/// The last rank a walk reaches (0 for an empty walk).
pub open spec fn walk_end(buckets: Seq<Bucket>) -> nat {
    if buckets.len() == 0 {
        0
    } else {
        buckets.last().cumulative as nat
    }
}

/// Band counts after `RankSplit` folds one bucket, standing at
/// band `b0`: each active band gains its share.
pub open spec fn split_step_counts(
    z: nat,
    n: nat,
    total: nat,
    m: nat,
    counts: Seq<nat>,
    b0: nat,
    bucket: Bucket,
) -> Seq<nat> {
    if bucket.count == 0 {
        counts
    } else {
        Seq::new(
            counts.len(),
            |i: int|
                if i < m {
                    counts[i] + split_share(
                        z,
                        n,
                        total,
                        b0,
                        bucket.cumulative - bucket.count + 1,
                        bucket.cumulative as int,
                        i as nat,
                    )
                } else {
                    counts[i]
                },
        )
    }
}

/// Where `RankSplit`'s walk stands after one bucket.
pub open spec fn split_step_index(z: nat, n: nat, total: nat, m: nat, b0: nat, bucket: Bucket) -> nat {
    if bucket.count == 0 {
        b0
    } else {
        split_next(z, n, total, m, bucket.cumulative as int, b0)
    }
}

/// Band counts and walk position after `RankSplit` folds every
/// bucket of `buckets` into `len` empty bands, as the per-call
/// contract of `RankSplit::assign` describes each step.
pub open spec fn split_pass(z: nat, n: nat, total: nat, len: nat, buckets: Seq<Bucket>) -> (
    Seq<nat>,
    nat,
)
    decreases buckets.len(),
{
    if buckets.len() == 0 {
        (Seq::new(len, |i: int| 0nat), 0)
    } else {
        let prev = split_pass(z, n, total, len, buckets.drop_last());
        let m = active_bands(z, n, len);
        (
            split_step_counts(z, n, total, m, prev.0, prev.1, buckets.last()),
            split_step_index(z, n, total, m, prev.1, buckets.last()),
        )
    }
}

/// The lower fence of band `i`: 0 for the first band, else the
/// fence capping band `i - 1`.
pub open spec fn lower_fence(z: nat, n: nat, total: nat, i: nat) -> int {
    if i == 0 {
        0
    } else {
        fence(z, n, total, (i - 1) as nat)
    }
}

/// Counting ranks of `[1, e]` and of `[e+1, e2]` counts the ranks
/// of `[1, e2]`.
pub proof fn lemma_span_additive(e: int, e2: int, lo: int, hi: int)
    requires
        0 <= e <= e2,
        lo >= 0,
    ensures
        span(1, e, lo, hi) + span(e + 1, e2, lo, hi) == span(1, e2, lo, hi),
{
}

/// The walk only passes bands whose fence lies at or below the
/// bucket's last rank, and never runs past the active bands.
pub proof fn lemma_split_next_passes(z: nat, n: nat, total: nat, m: nat, end: int, b: nat)
    requires
        b <= m,
    ensures
        b <= split_next(z, n, total, m, end, b) <= m,
        forall|i: nat|
            b <= i < split_next(z, n, total, m, end, b) ==> #[trigger] fence(z, n, total, i)
                <= end,
    decreases m - b,
{
    if b < m && fence(z, n, total, b) < end {
        lemma_split_next_passes(z, n, total, m, end, b + 1);
    }
}

/// RankSplit's band counts are exact rank spans: after a pass
/// over a consistent walk of `total` ranks into
/// `ladder.band_count()` empty bands, band `i` holds exactly the
/// ranks `r` in `1..=total` with `lower_fence(i) < r <= fence(i)`.
pub proof fn lemma_rank_split_exact(z: nat, n: nat, total: nat, buckets: Seq<Bucket>)
    requires
        valid_depths(z, n),
        consistent_walk(buckets),
        walk_end(buckets) == total,
    ensures
        split_pass(z, n, total, (ladder_len(z, n) - 1) as nat, buckets).0.len() == ladder_len(z, n)
            - 1,
        forall|i: int|
            0 <= i < ladder_len(z, n) - 1 ==> #[trigger] split_pass(
                z,
                n,
                total,
                (ladder_len(z, n) - 1) as nat,
                buckets,
            ).0[i] == span(1, total as int, lower_fence(z, n, total, i as nat), fence(z, n, total, i as nat)),
{
    lemma_split_pass_invariant(z, n, total, buckets);
}

/// The inductive invariant of a `RankSplit` pass over a prefix
/// of the walk ending at rank `e`: band counts are the spans of
/// `[1, e]`, the walk stands within the bands, and every band it
/// passed has its fence at or below `e`.
proof fn lemma_split_pass_invariant(z: nat, n: nat, total: nat, buckets: Seq<Bucket>)
    requires
        valid_depths(z, n),
        consistent_walk(buckets),
        walk_end(buckets) <= total,
    ensures
        ({
            let len = (ladder_len(z, n) - 1) as nat;
            let (counts, b) = split_pass(z, n, total, len, buckets);
            let e = walk_end(buckets) as int;
            &&& counts.len() == len
            &&& b <= len
            &&& forall|i: int|
                0 <= i < len ==> #[trigger] counts[i] == span(
                    1,
                    e,
                    lower_fence(z, n, total, i as nat),
                    fence(z, n, total, i as nat),
                )
            &&& forall|i: nat| i < b ==> #[trigger] fence(z, n, total, i) <= e
        }),
    decreases buckets.len(),
{
    let len = (ladder_len(z, n) - 1) as nat;
    let m = active_bands(z, n, len);
    assert(m == len);
    if buckets.len() == 0 {
        return;
    }
    let prefix = buckets.drop_last();
    assert(consistent_walk(prefix)) by {
        assert forall|k: int| 0 <= k < prefix.len() implies #[trigger] prefix[k].count
            <= prefix[k].cumulative && prefix[k].cumulative - prefix[k].count == if k == 0 {
            0
        } else {
            prefix[k - 1].cumulative as int
        } by {
            assert(prefix[k] == buckets[k]);
            if k > 0 {
                assert(prefix[k - 1] == buckets[k - 1]);
            }
        }
    }
    let last = buckets.last();
    let k = buckets.len() - 1;
    assert(buckets[k] == last);
    let e = walk_end(prefix) as int;
    assert(last.cumulative - last.count == e) by {
        if k > 0 {
            assert(buckets[k - 1] == prefix.last());
        }
    }
    lemma_split_pass_invariant(z, n, total, prefix);
    let (counts, b) = split_pass(z, n, total, len, prefix);
    let e2 = last.cumulative as int;
    if last.count == 0 {
        return;
    }
    let (counts2, b2) = split_pass(z, n, total, len, buckets);
    assert(counts2 == split_step_counts(z, n, total, m, counts, b, last));
    assert forall|i: int| 0 <= i < len implies #[trigger] counts2[i] == span(
        1,
        e2,
        lower_fence(z, n, total, i as nat),
        fence(z, n, total, i as nat),
    ) by {
        let lo = lower_fence(z, n, total, i as nat);
        let hi = fence(z, n, total, i as nat);
        lemma_fences(z, n, total, i as nat, i as nat);
        if i > 0 {
            lemma_fences(z, n, total, (i - 1) as nat, i as nat);
        }
        lemma_span_additive(e, e2, lo, hi);
        if i < b {
            assert(hi <= e);
        } else if i == b {
            if i > 0 {
                assert(fence(z, n, total, (i - 1) as nat) <= e);
            }
        }
    }
    lemma_split_next_passes(z, n, total, m, e2, b);
    assert forall|i: nat| i < b2 implies #[trigger] fence(z, n, total, i) <= e2 by {
        if i < b {
            assert(fence(z, n, total, i) <= e);
        }
    }
}


/// Band spans telescope: the first `k` bands of a pass hold the
/// ranks up to fence `k - 1`.
proof fn lemma_span_prefix_sum(z: nat, n: nat, total: nat, counts: Seq<nat>, k: nat)
    requires
        valid_depths(z, n),
        counts.len() == ladder_len(z, n) - 1,
        1 <= k <= counts.len(),
        forall|i: int|
            0 <= i < counts.len() ==> #[trigger] counts[i] == span(
                1,
                total as int,
                lower_fence(z, n, total, i as nat),
                fence(z, n, total, i as nat),
            ),
    ensures
        sum_counts(counts.take(k as int)) == fence(z, n, total, (k - 1) as nat),
    decreases k,
{
    let i = (k - 1) as nat;
    lemma_fences(z, n, total, i, i);
    lemma_sum_take_step(counts, i as int);
    if k == 1 {
        assert(counts.take(0) =~= Seq::<nat>::empty());
    } else {
        lemma_span_prefix_sum(z, n, total, counts, (k - 1) as nat);
        lemma_fences(z, n, total, (i - 1) as nat, i);
    }
}

/// RankSplit partitions the total exactly: after a pass over a
/// consistent walk of `total` ranks, the band counts sum to
/// `total`.
pub proof fn lemma_rank_split_partitions(z: nat, n: nat, total: nat, buckets: Seq<Bucket>)
    requires
        valid_depths(z, n),
        consistent_walk(buckets),
        walk_end(buckets) == total,
    ensures
        sum_counts(split_pass(z, n, total, (ladder_len(z, n) - 1) as nat, buckets).0) == total,
{
    let counts = split_pass(z, n, total, (ladder_len(z, n) - 1) as nat, buckets).0;
    lemma_rank_split_exact(z, n, total, buckets);
    lemma_span_prefix_sum(z, n, total, counts, counts.len());
    assert(counts.take(counts.len() as int) =~= counts);
    lemma_fences(z, n, total, (counts.len() - 1) as nat, (counts.len() - 1) as nat);
}

/// The counts of a slice of bands.
pub open spec fn band_counts(bands: Seq<Band>) -> Seq<nat> {
    bands.map_values(|b: Band| b.count as nat)
}

/// MidRank conserves the total: folding a bucket wholly into one
/// band raises the band counts' sum by exactly the bucket's
/// count.
pub proof fn lemma_mid_rank_conserves(bands: Seq<Band>, index: int, low: u64, high: u64, count: nat)
    requires
        0 <= index < bands.len(),
        bands[index].count + count <= u64::MAX,
    ensures
        sum_counts(band_counts(bands.update(index, folded(bands[index], low, high, count))))
            == sum_counts(band_counts(bands)) + count,
{
    let b2 = bands.update(index, folded(bands[index], low, high, count));
    assert(band_counts(b2) =~= band_counts(bands).update(
        index,
        (bands[index].count + count) as nat,
    ));
    lemma_sum_update(band_counts(bands), index, (bands[index].count + count) as nat);
}

/// `len` empty bands, as a table starts its pass with.
pub open spec fn empty_bands(len: nat) -> Seq<Band> {
    Seq::new(len, |i: int| empty_band())
}

/// Dropping a consistent walk's last bucket leaves a consistent
/// walk that ends no later.
pub proof fn lemma_walk_prefix(buckets: Seq<Bucket>)
    requires
        consistent_walk(buckets),
        buckets.len() > 0,
    ensures
        consistent_walk(buckets.drop_last()),
        walk_end(buckets.drop_last()) == buckets.last().cumulative - buckets.last().count,
        walk_end(buckets.drop_last()) <= walk_end(buckets),
{
    let prefix = buckets.drop_last();
    let k = buckets.len() - 1;
    assert forall|j: int| 0 <= j < prefix.len() implies #[trigger] prefix[j].count
        <= prefix[j].cumulative && prefix[j].cumulative - prefix[j].count == if j == 0 {
        0
    } else {
        prefix[j - 1].cumulative as int
    } by {
        assert(prefix[j] == buckets[j]);
        if j > 0 {
            assert(prefix[j - 1] == buckets[j - 1]);
        }
    }
    assert(buckets[k] == buckets.last());
    if k > 0 {
        assert(buckets[k - 1] == prefix.last());
    }
}

/// A `RankSplit` pass from a fresh walk follows `split_pass`:
/// its band counts are the counts `split_pass` describes and its
/// walk stands where `split_pass` says.
proof fn lemma_rank_split_pass_tracks(a: RankSplit, ladder: Ladder, total: u64, buckets: Seq<Bucket>)
    requires
        a.band_index == 0,
        valid_depths(ladder.z(), ladder.n()),
        consistent_walk(buckets),
        walk_end(buckets) <= total,
    ensures
        ({
            let len = (ladder_len(ladder.z(), ladder.n()) - 1) as nat;
            let pass = assign_pass(a, total, ladder, empty_bands(len), buckets);
            let split = split_pass(ladder.z(), ladder.n(), total as nat, len, buckets);
            &&& pass.1.len() == len
            &&& band_counts(pass.1) == split.0
            &&& pass.0.band_index == split.1
        }),
    decreases buckets.len(),
{
    let z = ladder.z();
    let n = ladder.n();
    let t = total as nat;
    let len = (ladder_len(z, n) - 1) as nat;
    let m = active_bands(z, n, len);
    if buckets.len() == 0 {
        assert(band_counts(empty_bands(len)) =~= Seq::new(len, |i: int| 0nat));
        return;
    }
    let prefix = buckets.drop_last();
    let last = buckets.last();
    lemma_walk_prefix(buckets);
    lemma_rank_split_pass_tracks(a, ladder, total, prefix);
    lemma_split_pass_invariant(z, n, t, prefix);
    lemma_split_pass_invariant(z, n, t, buckets);
    let prev = assign_pass(a, total, ladder, empty_bands(len), prefix);
    let split = split_pass(z, n, t, len, prefix);
    let split2 = split_pass(z, n, t, len, buckets);
    let pass2 = assign_pass(a, total, ladder, empty_bands(len), buckets);
    assert(pass2 == prev.0.assigned(last, total, ladder, prev.1));
    if last.count == 0 {
        return;
    }
    let b0 = prev.0.band_index as nat;
    let start = last.cumulative - last.count + 1;
    let end = last.cumulative as int;
    // Every band's new count is a span of ranks up to `end`, so
    // folding its share in cannot overflow.
    assert forall|i: int| 0 <= i < len implies #[trigger] band_counts(pass2.1)[i] == split2.0[i] by {
        assert(split2.0[i] <= end);
        assert(band_counts(prev.1)[i] == split.0[i]);
    }
    assert(band_counts(pass2.1) =~= split2.0);
    lemma_split_next_passes(z, n, t, m, end, b0);
}

/// RankSplit's bands hold exact rank spans: a fresh `RankSplit`
/// passing over a consistent walk that ends at rank `total`,
/// into the ladder's `band_count` empty bands, leaves band `i`
/// with exactly the ranks `r` of `1..=total` with
/// `lower_fence(i) < r <= fence(i)`, and the band counts sum to
/// `total`.
pub proof fn lemma_rank_split_pass_exact(a: RankSplit, ladder: Ladder, buckets: Seq<Bucket>)
    requires
        a.spec_band_index() == 0,
        valid_depths(ladder.z(), ladder.n()),
        consistent_walk(buckets),
    ensures
        ({
            let z = ladder.z();
            let n = ladder.n();
            let total = walk_end(buckets);
            let len = (ladder_len(z, n) - 1) as nat;
            let bands = assign_pass(a, total as u64, ladder, empty_bands(len), buckets).1;
            &&& bands.len() == len
            &&& forall|i: int|
                0 <= i < len ==> #[trigger] bands[i].count == span(
                    1,
                    total as int,
                    lower_fence(z, n, total, i as nat),
                    fence(z, n, total, i as nat),
                )
            &&& sum_counts(band_counts(bands)) == total
        }),
{
    let z = ladder.z();
    let n = ladder.n();
    let total = walk_end(buckets);
    let len = (ladder_len(z, n) - 1) as nat;
    let bands = assign_pass(a, total as u64, ladder, empty_bands(len), buckets).1;
    lemma_rank_split_pass_tracks(a, ladder, total as u64, buckets);
    lemma_rank_split_exact(z, n, total, buckets);
    lemma_rank_split_partitions(z, n, total, buckets);
    assert forall|i: int| 0 <= i < len implies #[trigger] bands[i].count == span(
        1,
        total as int,
        lower_fence(z, n, total, i as nat),
        fence(z, n, total, i as nat),
    ) by {
        assert(band_counts(bands)[i] == bands[i].count);
    }
}

/// The ranks of bucket `b` inside band `i`'s rank span
/// `(lower_fence(i), fence(i)]`.
pub open spec fn band_share(z: nat, n: nat, total: nat, b: Bucket, i: nat) -> nat {
    span(
        b.cumulative - b.count + 1,
        b.cumulative as int,
        lower_fence(z, n, total, i),
        fence(z, n, total, i),
    )
}

/// Where `RankSplit`'s walk stands past every band whose fence
/// is at or below the ranks already walked, its share to a band
/// is the bucket's ranks inside that band's span.
proof fn lemma_split_share_is_band_share(
    z: nat,
    n: nat,
    total: nat,
    b0: nat,
    bucket: Bucket,
    i: nat,
)
    requires
        bucket.count <= bucket.cumulative,
        forall|j: nat| j < b0 ==> #[trigger] fence(z, n, total, j) <= bucket.cumulative - bucket.count,
    ensures
        split_share(
            z,
            n,
            total,
            b0,
            bucket.cumulative - bucket.count + 1,
            bucket.cumulative as int,
            i,
        ) == band_share(z, n, total, bucket, i),
{
    if i > 0 {
        assert(fence(z, n, total, (i - 1) as nat) >= 0);
    }
    if i < b0 {
        assert(fence(z, n, total, i) <= bucket.cumulative - bucket.count);
    } else if i == b0 && i > 0 {
        assert(fence(z, n, total, (i - 1) as nat) <= bucket.cumulative - bucket.count);
    }
}

/// The walk state behind the band-ends law, over the first `p`
/// buckets of the walk.
#[verifier::rlimit(80)]
#[verifier::spinoff_prover]
proof fn lemma_rank_split_pass_ends_inv(
    a: RankSplit,
    ladder: Ladder,
    total: u64,
    buckets: Seq<Bucket>,
    p: int,
)
    requires
        a.band_index == 0,
        valid_depths(ladder.z(), ladder.n()),
        consistent_walk(buckets),
        walk_end(buckets) <= total,
        0 <= p <= buckets.len(),
    ensures
        ({
            let z = ladder.z();
            let n = ladder.n();
            let t = total as nat;
            let len = (ladder_len(z, n) - 1) as nat;
            let bands = assign_pass(a, total, ladder, empty_bands(len), buckets.take(p)).1;
            &&& bands.len() == len
            &&& forall|i: int| 0 <= i < len && #[trigger] bands[i].count == 0 ==> bands[i] == empty_band()
            &&& forall|i: int, k: int|
                0 <= i < len && 0 <= k < p && #[trigger] band_share(z, n, t, buckets[k], i as nat) > 0
                    ==> #[trigger] bands[i].count > 0
            &&& forall|i: int|
                0 <= i < len && #[trigger] bands[i].count > 0 ==> exists|k1: int|
                    0 <= k1 < p && band_share(z, n, t, #[trigger] buckets[k1], i as nat) > 0
                        && bands[i].first == buckets[k1].low && forall|k: int|
                        0 <= k < k1 ==> band_share(z, n, t, #[trigger] buckets[k], i as nat) == 0
            &&& forall|i: int|
                0 <= i < len && #[trigger] bands[i].count > 0 ==> exists|k2: int|
                    0 <= k2 < p && band_share(z, n, t, #[trigger] buckets[k2], i as nat) > 0
                        && bands[i].last == buckets[k2].high && forall|k: int|
                        k2 < k < p ==> band_share(z, n, t, #[trigger] buckets[k], i as nat) == 0
        }),
    decreases p,
{
    let z = ladder.z();
    let n = ladder.n();
    let t = total as nat;
    let len = (ladder_len(z, n) - 1) as nat;
    let pre = buckets.take(p);
    lemma_walk_take(buckets, p);
    lemma_rank_split_pass_tracks(a, ladder, total, pre);
    let bands = assign_pass(a, total, ladder, empty_bands(len), pre).1;
    if p == 0 {
        assert(pre =~= Seq::<Bucket>::empty());
        return;
    }
    let pre1 = buckets.take(p - 1);
    assert(pre.drop_last() =~= pre1);
    let bk = buckets[p - 1];
    assert(pre.last() == bk);
    lemma_rank_split_pass_ends_inv(a, ladder, total, buckets, p - 1);
    lemma_walk_take(buckets, p - 1);
    lemma_rank_split_pass_tracks(a, ladder, total, pre1);
    lemma_split_pass_invariant(z, n, t, pre1);
    let prev = assign_pass(a, total, ladder, empty_bands(len), pre1);
    let split = split_pass(z, n, t, len, pre1);
    let split2 = split_pass(z, n, t, len, pre);
    let e = walk_end(pre1) as int;
    assert(bk.count <= bk.cumulative);
    assert(bk.cumulative - bk.count == e);
    assert(assign_pass(a, total, ladder, empty_bands(len), pre) == prev.0.assigned(
        bk,
        total,
        ladder,
        prev.1,
    ));
    let b0 = prev.0.band_index as nat;
    assert(b0 == split.1);
    assert(active_bands(z, n, len) == len);
    assert forall|i: int| 0 <= i < len implies #[trigger] split_share(
        z,
        n,
        t,
        b0,
        bk.cumulative - bk.count + 1,
        bk.cumulative as int,
        i as nat,
    ) == band_share(z, n, t, bk, i as nat) by {
        lemma_split_share_is_band_share(z, n, t, b0, bk, i as nat);
    }
    if bk.count == 0 {
        assert forall|i: int| 0 <= i < len implies #[trigger] band_share(z, n, t, bk, i as nat) == 0 by {}
        assert(bands == prev.1);
    } else {
        assert forall|i: int| 0 <= i < len implies #[trigger] band_counts(bands)[i]
            == band_counts(prev.1)[i] + band_share(z, n, t, bk, i as nat) by {
            assert(band_counts(bands)[i] == split2.0[i]);
            assert(band_counts(prev.1)[i] == split.0[i]);
        }
    }
    assert forall|i: int| 0 <= i < len && #[trigger] bands[i].count == 0 implies bands[i] == empty_band() by {
        assert(band_counts(bands)[i] == bands[i].count);
        assert(band_counts(prev.1)[i] == prev.1[i].count);
    }
    assert forall|i: int, k: int|
        0 <= i < len && 0 <= k < p && #[trigger] band_share(z, n, t, buckets[k], i as nat) > 0
            implies #[trigger] bands[i].count > 0 by {
        assert(band_counts(bands)[i] == bands[i].count);
        assert(band_counts(prev.1)[i] == prev.1[i].count);
    }
    assert forall|i: int| 0 <= i < len && #[trigger] bands[i].count > 0 implies exists|k1: int|
        0 <= k1 < p && band_share(z, n, t, #[trigger] buckets[k1], i as nat) > 0
            && bands[i].first == buckets[k1].low && forall|k: int|
            0 <= k < k1 ==> band_share(z, n, t, #[trigger] buckets[k], i as nat) == 0 by {
        assert(band_counts(bands)[i] == bands[i].count);
        assert(band_counts(prev.1)[i] == prev.1[i].count);
        if prev.1[i].count > 0 {
            let k1 = choose|k1: int|
                0 <= k1 < p - 1 && band_share(z, n, t, #[trigger] buckets[k1], i as nat) > 0
                    && prev.1[i].first == buckets[k1].low && forall|k: int|
                    0 <= k < k1 ==> band_share(z, n, t, #[trigger] buckets[k], i as nat) == 0;
            assert(bands[i].first == prev.1[i].first);
            assert(0 <= k1 < p && bands[i].first == buckets[k1].low);
        } else {
            assert(band_share(z, n, t, bk, i as nat) > 0);
            assert(bands[i].first == bk.low);
            assert forall|k: int| 0 <= k < p - 1 implies band_share(
                z,
                n,
                t,
                #[trigger] buckets[k],
                i as nat,
            ) == 0 by {
                if band_share(z, n, t, buckets[k], i as nat) > 0 {
                    assert(prev.1[i].count > 0);
                }
            }
        }
    }
    assert forall|i: int| 0 <= i < len && #[trigger] bands[i].count > 0 implies exists|k2: int|
        0 <= k2 < p && band_share(z, n, t, #[trigger] buckets[k2], i as nat) > 0
            && bands[i].last == buckets[k2].high && forall|k: int|
            k2 < k < p ==> band_share(z, n, t, #[trigger] buckets[k], i as nat) == 0 by {
        assert(band_counts(bands)[i] == bands[i].count);
        assert(band_counts(prev.1)[i] == prev.1[i].count);
        if band_share(z, n, t, bk, i as nat) > 0 {
            assert(bands[i].last == bk.high);
            assert(band_share(z, n, t, buckets[p - 1], i as nat) > 0);
        } else {
            assert(bands[i] == prev.1[i]);
            let k2 = choose|k2: int|
                0 <= k2 < p - 1 && band_share(z, n, t, #[trigger] buckets[k2], i as nat) > 0
                    && prev.1[i].last == buckets[k2].high && forall|k: int|
                    k2 < k < p - 1 ==> band_share(z, n, t, #[trigger] buckets[k], i as nat) == 0;
            assert forall|k: int| k2 < k < p implies band_share(
                z,
                n,
                t,
                #[trigger] buckets[k],
                i as nat,
            ) == 0 by {
                if k == p - 1 {
                    assert(buckets[k] == bk);
                }
            }
        }
    }
}

/// RankSplit band ends come from the buckets that reach them:
/// after a fresh `RankSplit` passes over a consistent walk ending
/// at rank `total` into the ladder's empty bands, a band holds
/// ranks exactly when some bucket has ranks inside its span, an
/// empty band is untouched, and a populated band's `first` and
/// `last` are the low end of the first and the high end of the
/// last bucket with ranks inside its span.
pub proof fn lemma_rank_split_pass_ends(a: RankSplit, ladder: Ladder, buckets: Seq<Bucket>)
    requires
        a.spec_band_index() == 0,
        valid_depths(ladder.z(), ladder.n()),
        consistent_walk(buckets),
    ensures
        ({
            let z = ladder.z();
            let n = ladder.n();
            let t = walk_end(buckets);
            let len = (ladder_len(z, n) - 1) as nat;
            let bands = assign_pass(a, t as u64, ladder, empty_bands(len), buckets).1;
            &&& bands.len() == len
            &&& forall|i: int| 0 <= i < len && #[trigger] bands[i].count == 0 ==> bands[i] == empty_band()
            &&& forall|i: int, k: int|
                0 <= i < len && 0 <= k < buckets.len() && #[trigger] band_share(
                    z,
                    n,
                    t,
                    buckets[k],
                    i as nat,
                ) > 0 ==> #[trigger] bands[i].count > 0
            &&& forall|i: int|
                0 <= i < len && #[trigger] bands[i].count > 0 ==> exists|k1: int|
                    0 <= k1 < buckets.len() && band_share(z, n, t, #[trigger] buckets[k1], i as nat)
                        > 0 && bands[i].first == buckets[k1].low && forall|k: int|
                        0 <= k < k1 ==> band_share(z, n, t, #[trigger] buckets[k], i as nat) == 0
            &&& forall|i: int|
                0 <= i < len && #[trigger] bands[i].count > 0 ==> exists|k2: int|
                    0 <= k2 < buckets.len() && band_share(z, n, t, #[trigger] buckets[k2], i as nat)
                        > 0 && bands[i].last == buckets[k2].high && forall|k: int|
                        k2 < k < buckets.len() ==> band_share(z, n, t, #[trigger] buckets[k], i as nat)
                        == 0
        }),
{
    lemma_rank_split_pass_ends_inv(
        a,
        ladder,
        walk_end(buckets) as u64,
        buckets,
        buckets.len() as int,
    );
    assert(buckets.take(buckets.len() as int) =~= buckets);
}

/// A `MidRank` pass over a walk ending at or below `total` keeps
/// the band counts' sum at the walk's end.
proof fn lemma_mid_rank_pass_sum(a: MidRank, ladder: Ladder, total: u64, len: nat, buckets: Seq<Bucket>)
    requires
        len > 0,
        consistent_walk(buckets),
        walk_end(buckets) <= total,
    ensures
        ({
            let bands = assign_pass(a, total, ladder, empty_bands(len), buckets).1;
            &&& bands.len() == len
            &&& sum_counts(band_counts(bands)) == walk_end(buckets)
        }),
    decreases buckets.len(),
{
    if buckets.len() == 0 {
        assert(band_counts(empty_bands(len)) =~= Seq::new(len, |i: int| 0nat));
        lemma_zeros_sum(len);
        return;
    }
    let prefix = buckets.drop_last();
    let last = buckets.last();
    lemma_walk_prefix(buckets);
    lemma_mid_rank_pass_sum(a, ladder, total, len, prefix);
    let prev = assign_pass(a, total, ladder, empty_bands(len), prefix).1;
    if last.count == 0 || total == 0 {
        return;
    }
    let index = mid_band(
        ladder.z(),
        ladder.n(),
        total as nat,
        (2 * last.cumulative - last.count) as nat,
        len,
        0,
    );
    lemma_mid_band_in_range(
        ladder.z(),
        ladder.n(),
        total as nat,
        (2 * last.cumulative - last.count) as nat,
        len,
        0,
    );
    lemma_element_le_sum(band_counts(prev), index as int);
    lemma_mid_rank_conserves(prev, index as int, last.low, last.high, last.count as nat);
}

/// MidRank conserves the total over a pass: each bucket lands
/// wholly in one band, so a pass over a consistent walk into
/// `len > 0` empty bands leaves band counts summing to the
/// walk's last rank.
pub proof fn lemma_mid_rank_pass_conserves(a: MidRank, ladder: Ladder, len: nat, buckets: Seq<Bucket>)
    requires
        len > 0,
        consistent_walk(buckets),
    ensures
        ({
            let total = walk_end(buckets);
            let bands = assign_pass(a, total as u64, ladder, empty_bands(len), buckets).1;
            &&& bands.len() == len
            &&& sum_counts(band_counts(bands)) == total
        }),
{
    lemma_mid_rank_pass_sum(a, ladder, walk_end(buckets) as u64, len, buckets);
}

/// Each bucket of a walk covers a value range `low..=high` lying
/// wholly above every earlier bucket's.
pub open spec fn ascending_walk(buckets: Seq<Bucket>) -> bool {
    &&& forall|k: int| 0 <= k < buckets.len() ==> #[trigger] buckets[k].low <= buckets[k].high
    &&& forall|k: int, l: int|
        #![trigger buckets[k], buckets[l]]
        0 <= k < l < buckets.len() ==> buckets[k].high < buckets[l].low
}

/// A prefix of a consistent walk is a consistent walk ending no
/// later; its last bucket starts where the shorter prefix ends.
pub proof fn lemma_walk_take(buckets: Seq<Bucket>, p: int)
    requires
        consistent_walk(buckets),
        0 <= p <= buckets.len(),
    ensures
        consistent_walk(buckets.take(p)),
        walk_end(buckets.take(p)) <= walk_end(buckets),
        p > 0 ==> walk_end(buckets.take(p)) == buckets[p - 1].cumulative,
        p > 0 ==> buckets[p - 1].cumulative - buckets[p - 1].count == walk_end(buckets.take(p - 1)),
    decreases buckets.len() - p,
{
    let pre = buckets.take(p);
    assert forall|k: int| 0 <= k < pre.len() implies #[trigger] pre[k].count <= pre[k].cumulative
        && pre[k].cumulative - pre[k].count == if k == 0 {
        0
    } else {
        pre[k - 1].cumulative as int
    } by {
        assert(pre[k] == buckets[k]);
        if k > 0 {
            assert(pre[k - 1] == buckets[k - 1]);
        }
    }
    if p > 0 {
        assert(pre.last() == buckets[p - 1]);
        if p > 1 {
            assert(buckets.take(p - 1).last() == buckets[p - 2]);
        }
    }
    if p < buckets.len() {
        lemma_walk_take(buckets, p + 1);
        assert(buckets[p].count <= buckets[p].cumulative);
    } else {
        assert(pre =~= buckets);
    }
}

/// The band `MidRank` picks never moves down as the mid-rank
/// grows.
pub proof fn lemma_mid_band_monotone(
    z: nat,
    n: nat,
    total: nat,
    m1: nat,
    m2: nat,
    len: nat,
    index: nat,
)
    requires
        m1 <= m2,
        len > 0,
        index <= len,
    ensures
        mid_band(z, n, total, m1, len, index) <= mid_band(z, n, total, m2, len, index),
    decreases len - index,
{
    if index < len {
        lemma_mid_band_monotone(z, n, total, m1, m2, len, index + 1);
        lemma_mid_band_in_range(z, n, total, m1, len, index + 1);
        lemma_mid_band_in_range(z, n, total, m2, len, index + 1);
        if ladder_at(z, n, index + 1) is Some {
            let den = boundary_fraction(ladder_at(z, n, index + 1).unwrap()).1;
            lemma_mul_inequality(m1 as int, m2 as int, den as int);
        }
    }
}

/// The walk state behind the edge law: after `MidRank` passes
/// over the first `p` buckets of an ascending walk, populated
/// bands have ordered, disjoint value ranges, sit no higher
/// than the band of the prefix's doubled end rank, and each
/// ends at some earlier bucket's high end.
proof fn lemma_mid_rank_pass_edges(
    a: MidRank,
    ladder: Ladder,
    total: u64,
    len: nat,
    buckets: Seq<Bucket>,
    p: int,
)
    requires
        len > 0,
        consistent_walk(buckets),
        ascending_walk(buckets),
        walk_end(buckets) <= total,
        0 <= p <= buckets.len(),
    ensures
        ({
            let pre = buckets.take(p);
            let bands = assign_pass(a, total, ladder, empty_bands(len), pre).1;
            let top = mid_band(ladder.z(), ladder.n(), total as nat, 2 * walk_end(pre), len, 0);
            &&& bands.len() == len
            &&& forall|i: int|
                0 <= i < len && #[trigger] bands[i].count > 0 ==> bands[i].first <= bands[i].last
            &&& forall|i: int, j: int|
                #![trigger bands[i], bands[j]]
                0 <= i < j < len && bands[i].count > 0 && bands[j].count > 0 ==> bands[i].last
                    < bands[j].first
            &&& forall|i: int| 0 <= i < len && #[trigger] bands[i].count > 0 ==> i <= top
            &&& forall|i: int|
                0 <= i < len && #[trigger] bands[i].count > 0 ==> exists|k: int|
                    0 <= k < p && bands[i].last == #[trigger] buckets[k].high
        }),
    decreases p,
{
    let z = ladder.z();
    let n = ladder.n();
    let t = total as nat;
    let pre = buckets.take(p);
    let bands = assign_pass(a, total, ladder, empty_bands(len), pre).1;
    if p == 0 {
        assert(pre =~= Seq::<Bucket>::empty());
        return;
    }
    let pre1 = buckets.take(p - 1);
    assert(pre.drop_last() =~= pre1);
    let bk = buckets[p - 1];
    assert(pre.last() == bk);
    lemma_mid_rank_pass_edges(a, ladder, total, len, buckets, p - 1);
    lemma_walk_take(buckets, p - 1);
    lemma_walk_take(buckets, p);
    lemma_mid_rank_pass_sum(a, ladder, total, len, pre1);
    let prev = assign_pass(a, total, ladder, empty_bands(len), pre1).1;
    let we1 = walk_end(pre1);
    let we = walk_end(pre);
    let top1 = mid_band(z, n, t, 2 * we1, len, 0);
    let top = mid_band(z, n, t, 2 * we, len, 0);
    lemma_mid_band_monotone(z, n, t, 2 * we1, 2 * we, len, 0);
    assert(bk.count <= bk.cumulative);
    if bk.count == 0 || total == 0 {
        assert(bands == prev);
        assert forall|i: int| 0 <= i < len && #[trigger] bands[i].count > 0 implies exists|k: int|
            0 <= k < p && bands[i].last == #[trigger] buckets[k].high by {
            let k = choose|k: int| 0 <= k < p - 1 && prev[i].last == #[trigger] buckets[k].high;
            assert(0 <= k < p && bands[i].last == buckets[k].high);
        }
        return;
    }
    let mid2 = (2 * bk.cumulative - bk.count) as nat;
    let j = mid_band(z, n, t, mid2, len, 0);
    lemma_mid_band_in_range(z, n, t, mid2, len, 0);
    lemma_mid_band_monotone(z, n, t, 2 * we1, mid2, len, 0);
    lemma_mid_band_monotone(z, n, t, mid2, 2 * we, len, 0);
    lemma_element_le_sum(band_counts(prev), j as int);
    assert(band_counts(prev)[j as int] == prev[j as int].count);
    let nb = folded(prev[j as int], bk.low, bk.high, bk.count as nat);
    assert(bands == prev.update(j as int, nb));
    assert(nb.count == prev[j as int].count + bk.count);
    assert(bk.low <= bk.high);
    // Every band populated before lies at or below `j` and ends
    // below this bucket's low end.
    assert forall|i: int| 0 <= i < len && #[trigger] prev[i].count > 0 implies i <= j
        && prev[i].last < bk.low by {
        let k = choose|k: int| 0 <= k < p - 1 && prev[i].last == #[trigger] buckets[k].high;
        assert(buckets[k].high < buckets[p - 1].low);
    }
    assert forall|i: int| 0 <= i < len && #[trigger] bands[i].count > 0 implies bands[i].first
        <= bands[i].last by {
        if i == j && prev[i].count > 0 {
            assert(prev[i].first <= prev[i].last);
        }
    }
    assert forall|i: int, l: int|
        #![trigger bands[i], bands[l]]
        0 <= i < l < len && bands[i].count > 0 && bands[l].count > 0 implies bands[i].last
            < bands[l].first by {
        if l == j {
            if prev[l].count > 0 {
                assert(prev[i].last < prev[l].first);
            }
        } else if i == j {
            assert(prev[l].count > 0);
            assert(l <= j);
        }
    }
    assert forall|i: int| 0 <= i < len && #[trigger] bands[i].count > 0 implies exists|k: int|
        0 <= k < p && bands[i].last == #[trigger] buckets[k].high by {
        if i == j {
            assert(bands[i].last == buckets[p - 1].high);
        } else {
            let k = choose|k: int| 0 <= k < p - 1 && prev[i].last == #[trigger] buckets[k].high;
            assert(0 <= k < p && bands[i].last == buckets[k].high);
        }
    }
}

/// MidRank keeps value edges disjoint: a pass over a consistent
/// walk whose buckets ascend in value, into `len > 0` empty
/// bands, leaves every populated band with `first <= last` and
/// wholly below every later populated band.
pub proof fn lemma_mid_rank_pass_disjoint(a: MidRank, ladder: Ladder, len: nat, buckets: Seq<Bucket>)
    requires
        len > 0,
        consistent_walk(buckets),
        ascending_walk(buckets),
    ensures
        ({
            let bands = assign_pass(a, walk_end(buckets) as u64, ladder, empty_bands(len), buckets).1;
            &&& bands.len() == len
            &&& forall|i: int|
                0 <= i < len && #[trigger] bands[i].count > 0 ==> bands[i].first <= bands[i].last
            &&& forall|i: int, j: int|
                #![trigger bands[i], bands[j]]
                0 <= i < j < len && bands[i].count > 0 && bands[j].count > 0 ==> bands[i].last
                    < bands[j].first
        }),
{
    lemma_mid_rank_pass_edges(a, ladder, walk_end(buckets) as u64, len, buckets, buckets.len() as int);
    assert(buckets.take(buckets.len() as int) =~= buckets);
}

/// A sequence of zeros sums to zero.
pub proof fn lemma_zeros_sum(len: nat)
    ensures
        sum_counts(Seq::new(len, |i: int| 0nat)) == 0,
    decreases len,
{
    if len > 0 {
        lemma_zeros_sum((len - 1) as nat);
        assert(Seq::new(len, |i: int| 0nat).drop_last() =~= Seq::new(
            (len - 1) as nat,
            |i: int| 0nat,
        ));
    }
}

/// Walk over a [`Ladder`]'s boundaries, ascending CDF.
#[derive(Debug)]
pub struct LadderIter {
    ladder: Ladder,
    index: usize,
}

impl LadderIter {
    /// The ladder being walked.
    pub closed spec fn spec_ladder(self) -> Ladder {
        self.ladder
    }

    /// Position of the next boundary the walk reports.
    pub closed spec fn position(self) -> nat {
        self.index as nat
    }

    #[verifier::type_invariant]
    closed spec fn walk_inv(self) -> bool {
        self.index <= ladder_len(self.ladder.z(), self.ladder.n())
    }

    /// The next boundary, `None` past the end.
    pub fn next(&mut self) -> (r: Option<Boundary>)
        ensures
            final(self).spec_ladder() == old(self).spec_ladder(),
            r == ladder_at(old(self).spec_ladder().z(), old(self).spec_ladder().n(), old(self).position()),
            r is Some ==> final(self).position() == old(self).position() + 1,
            r is None ==> final(self).position() == old(self).position(),
    {
        proof {
            use_type_invariant(&*self);
        }
        let boundary = self.ladder.get(self.index);
        if boundary.is_some() {
            proof {
                use_type_invariant(&self.ladder);
            }
            self.index = self.index + 1;
        }
        boundary
    }

    /// Boundaries the walk has yet to report.
    pub fn len(&self) -> (r: usize)
        ensures
            self.position() <= ladder_len(self.spec_ladder().z(), self.spec_ladder().n()),
            r == ladder_len(self.spec_ladder().z(), self.spec_ladder().n()) - self.position(),
    {
        proof {
            use_type_invariant(self);
        }
        self.ladder.len() - self.index
    }

    /// Every remaining boundary, in walk order.
    pub fn collect(self) -> (r: Vec<Boundary>)
        ensures
            self.position() <= ladder_len(self.spec_ladder().z(), self.spec_ladder().n()),
            r@.len() == ladder_len(self.spec_ladder().z(), self.spec_ladder().n()) - self.position(),
            forall|k: int|
                0 <= k < r@.len() ==> Some(#[trigger] r@[k]) == ladder_at(
                    self.spec_ladder().z(),
                    self.spec_ladder().n(),
                    (self.position() + k) as nat,
                ),
    {
        proof {
            use_type_invariant(&self);
        }
        let mut walk = self;
        let mut out: Vec<Boundary> = Vec::new();
        let ghost start = self.position();
        let ghost z = self.spec_ladder().z();
        let ghost n = self.spec_ladder().n();
        loop
            invariant
                walk.spec_ladder() == self.spec_ladder(),
                start <= walk.position() <= ladder_len(z, n),
                z == self.spec_ladder().z(),
                n == self.spec_ladder().n(),
                out@.len() == walk.position() - start,
                forall|k: int|
                    0 <= k < out@.len() ==> Some(#[trigger] out@[k]) == ladder_at(
                        z,
                        n,
                        (start + k) as nat,
                    ),
            ensures
                walk.position() == ladder_len(z, n),
                out@.len() == walk.position() - start,
                forall|k: int|
                    0 <= k < out@.len() ==> Some(#[trigger] out@[k]) == ladder_at(
                        z,
                        n,
                        (start + k) as nat,
                    ),
            decreases ladder_len(z, n) - walk.position(),
        {
            let b = walk.next();
            match b {
                Some(b) => {
                    out.push(b);
                },
                None => {
                    break;
                },
            }
        }
        out
    }
}

} // verus!
