//! h2 configuration and the log-linear index math.
//!
//! - `Config` holds the two powers `(grouping_power,
//!   max_value_power)` and derives everything else: bucket
//!   count, value→index, index→value range.
//! - The scheme: values below `2^(g+1)` are exact (width-1
//!   buckets); each power-of-two range above holds `2^g`
//!   equal-width buckets, so relative error ≤ `2^-g`.
use vstd::prelude::*;
use vstd::arithmetic::power2::{pow2, lemma_pow2_pos, lemma_pow2_unfold, lemma2_to64, lemma2_to64_rest};
use vstd::arithmetic::div_mod::{lemma_fundamental_div_mod_converse, lemma_div_is_ordered};
use vstd::arithmetic::mul::{
    lemma_mul_inequality, lemma_mul_is_distributive_add, lemma_mul_is_commutative,
    lemma_mul_strict_inequality,
};
use vstd::bits::{
    lemma_u64_shl_is_mul, lemma_u64_shr_is_div, lemma_usize_shl_is_mul, lemma_usize_shr_is_div,
    lemma_u64_pow2_no_overflow,
};
use vstd::std_specs::bits::u64_leading_zeros;
use crate::bitmath::{msb, lemma_pow2_le, lemma_msb_bounds, lemma_msb_unique, lemma_msb_monotone, lemma_leading_zeros_msb, lemma_pow2_mul, lemma_quotient_range, lemma_index_decode, lemma_pow2_linear};

verus! {

/// Errors from configuration validation.
#[derive(Debug, Clone, Copy, PartialEq, Eq, Structural)]
pub enum Error {
    /// `max_value_power` is outside `1..=64`.
    MaxValuePower,
    /// `grouping_power` is not below `max_value_power`, or
    /// exceeds 62 (keeps every internal shift in u64 range).
    GroupingPower,
    /// `(n - g + 1) << g` exceeds `u32::MAX` buckets — far
    /// beyond any practical footprint.
    TooManyBuckets,
    /// Counts storage length differs from
    /// `Config::total_buckets()`.
    StorageLen,
    /// Operation requires identical configs (e.g. merge).
    ConfigMismatch,
    /// Band-ladder tail depth outside `2..=19` — below 2 the
    /// tail vanishes into the deciles, above 19 the
    /// `10^depth` fence math leaves u64.
    BandDepth,
    /// A band table's capacity is below its ladder's band
    /// count.
    TableCapacity,
}

/// Number of buckets of the powers `(g, n)`: `(n - g + 1) * 2^g`.
pub open spec fn buckets_of(g: nat, n: nat) -> nat {
    ((n - g + 1) * pow2(g)) as nat
}

/// The powers a `Config` accepts: `1 <= n <= 64`, `g < n`,
/// `g <= 62`, and at most `u32::MAX` buckets.
pub open spec fn valid_powers(g: nat, n: nat) -> bool {
    &&& 1 <= n <= 64
    &&& g < n
    &&& g <= 62
    &&& buckets_of(g, n) <= u32::MAX
}

/// The rejection `Config::new` answers for the powers `(g, n)`,
/// or `None` when they are valid.
pub open spec fn config_error(g: nat, n: nat) -> Option<Error> {
    if n < 1 || n > 64 {
        Some(Error::MaxValuePower)
    } else if g >= n || g > 62 {
        Some(Error::GroupingPower)
    } else if buckets_of(g, n) > u32::MAX {
        Some(Error::TooManyBuckets)
    } else {
        None
    }
}

/// Largest trackable value, `2^n - 1`.
pub open spec fn max_value_of(n: nat) -> nat {
    (pow2(n) - 1) as nat
}

/// A value clamped to the trackable range.
pub open spec fn clamp_value(n: nat, v: nat) -> nat {
    if v > max_value_of(n) {
        max_value_of(n)
    } else {
        v
    }
}

/// Bucket of a value `c >= 2^g` in the log region: with
/// `s = msb(c) - g`, the `s`-th power-of-two group, offset by
/// the top `g + 1` bits of `c`.
pub open spec fn log_index(g: nat, c: nat) -> nat {
    let s = (msb(c) - g) as nat;
    s * pow2(g) + c / pow2(s)
}

/// The bucket index of value `v`: exact below `2^(g+1)`, else
/// the log-region index of `v` clamped to `2^n - 1`.
pub open spec fn index_of(g: nat, n: nat, v: nat) -> nat {
    if v < pow2(g + 1) {
        v
    } else {
        log_index(g, clamp_value(n, v))
    }
}

/// The bucket width exponent of a log-region index `i`.
pub open spec fn bucket_shift(g: nat, i: nat) -> nat {
    (i / pow2(g) - 1) as nat
}

/// Inclusive low end of bucket `i`.
pub open spec fn range_low(g: nat, i: nat) -> nat {
    if i < pow2(g + 1) {
        i
    } else {
        let s = bucket_shift(g, i);
        ((i - s * pow2(g)) * pow2(s)) as nat
    }
}

/// Inclusive high end of bucket `i`.
pub open spec fn range_high(g: nat, i: nat) -> nat {
    if i < pow2(g + 1) {
        i
    } else {
        (range_low(g, i) + pow2(bucket_shift(g, i)) - 1) as nat
    }
}

/// Facts every valid pair of powers gives: the exact region
/// fits in the buckets, which fit in `u32`, and `g <= 30`.
pub proof fn lemma_valid_powers_facts(g: nat, n: nat)
    requires
        valid_powers(g, n),
    ensures
        g <= 30,
        pow2(g + 1) == 2 * pow2(g),
        pow2(g + 1) <= buckets_of(g, n),
        pow2(g + 1) <= max_value_of(n) + 1,
        pow2(n) <= pow2(64),
        pow2(64) == 0x1_0000_0000_0000_0000,
        max_value_of(n) <= u64::MAX,
        pow2(g) >= 1,
{
    lemma2_to64();
    lemma2_to64_rest();
    lemma_pow2_unfold(g + 1);
    lemma_pow2_pos(g);
    lemma_mul_inequality(2, n - g + 1, pow2(g) as int);
    if g > 30 {
        lemma_pow2_le(32, g + 1);
    }
    lemma_pow2_le(g + 1, n);
    lemma_pow2_le(n, 64);
}


/// The log-region decomposition of a value `c` in
/// `[2^g, 2^n - 1]`: its group `s = msb(c) - g` stays below
/// `n - g`, its quotient `c / 2^s` keeps `g + 1` bits, and its
/// index fits in the buckets.
pub proof fn lemma_log_index_facts(g: nat, n: nat, c: nat)
    requires
        valid_powers(g, n),
        pow2(g) <= c <= max_value_of(n),
    ensures
        g <= msb(c) < n,
        pow2(msb(c)) <= c < pow2(msb(c) + 1),
        pow2(g) <= c / pow2((msb(c) - g) as nat) < pow2(g + 1),
        log_index(g, c) < buckets_of(g, n),
        (msb(c) - g) * pow2(g) + pow2(g + 1) <= buckets_of(g, n),
{
    lemma_valid_powers_facts(g, n);
    lemma_pow2_pos(n);
    lemma_msb_bounds(c);
    let p = msb(c);
    if p < g {
        lemma_pow2_le(p + 1, g);
    }
    if p >= n {
        lemma_pow2_le(n, p);
    }
    let s = (p - g) as nat;
    assert(g + s == p);
    lemma_quotient_range(c, g, s);
    lemma_mul_inequality((s + 2) as int, (n - g + 1) as int, pow2(g) as int);
    assert((s + 2) * pow2(g) == s * pow2(g) + 2 * pow2(g)) by (nonlinear_arith);
}

/// A log-region index `i` (at least `2^(g+1)`, below the bucket
/// count) splits as `s * 2^g + q` with `1 <= s <= n - g - 1`
/// and `q` in `[2^g, 2^(g+1))`; its low end is `q * 2^s`.
pub proof fn lemma_log_bucket_facts(g: nat, n: nat, i: nat)
    requires
        valid_powers(g, n),
        pow2(g + 1) <= i < buckets_of(g, n),
    ensures
        1 <= bucket_shift(g, i) <= n - g - 1,
        pow2(g) <= i - bucket_shift(g, i) * pow2(g) < pow2(g + 1),
        i == bucket_shift(g, i) * pow2(g) + (i - bucket_shift(g, i) * pow2(g)),
        i / pow2(g) == bucket_shift(g, i) + 1,
        range_low(g, i) == (i - bucket_shift(g, i) * pow2(g)) * pow2(bucket_shift(g, i)),
        pow2(g + bucket_shift(g, i)) <= range_low(g, i),
        range_high(g, i) + 1 == (i - bucket_shift(g, i) * pow2(g) + 1) * pow2(bucket_shift(g, i)),
        range_high(g, i) < pow2(g + 1 + bucket_shift(g, i)),
        pow2(g + 1 + bucket_shift(g, i)) <= pow2(n),
{
    lemma_valid_powers_facts(g, n);
    let d = pow2(g) as int;
    let t = i as int / d;
    let r = i as int % d;
    vstd::arithmetic::div_mod::lemma_fundamental_div_mod(i as int, d);
    vstd::arithmetic::div_mod::lemma_mod_bound(i as int, d);
    assert(i == d * t + r);
    // 2 <= t <= n - g
    if t < 2 {
        assert(d * t <= d * 1) by (nonlinear_arith) requires t < 2, d > 0;
    }
    if t > n - g {
        assert(d * t >= d * (n - g + 1)) by (nonlinear_arith) requires t > n - g, d > 0;
        assert(buckets_of(g, n) == (n - g + 1) * d);
        assert(d * (n - g + 1) == (n - g + 1) * d) by (nonlinear_arith);
    }
    let s = (t - 1) as nat;
    assert(bucket_shift(g, i) == s);
    let q = i - s * d;
    assert(q == d + r) by (nonlinear_arith) requires i == d * t + r, s == t - 1, q == i - s * d;
    assert(i == s * pow2(g) + q);
    lemma_pow2_mul(g, s);
    lemma_pow2_mul(g + 1, s);
    lemma_pow2_pos(s);
    assert(g + 1 + s == (g + 1) + s);
    lemma_mul_inequality(d, q, pow2(s) as int);
    lemma_mul_inequality((q + 1) as int, pow2(g + 1) as int, pow2(s) as int);
    assert((q + 1) * pow2(s) == q * pow2(s) + pow2(s)) by (nonlinear_arith);
    assert(range_low(g, i) == q * pow2(s));
    lemma_pow2_le(g + 1 + s, n);
}


/// A log-region index written as `s * 2^g + q` (with `q` in
/// `[2^g, 2^(g+1))`) names the bucket `[q * 2^s, (q+1) * 2^s)`;
/// with `s == 0` it is the exact bucket `q`.
pub proof fn lemma_decoded_range(g: nat, s: nat, q: nat)
    requires
        pow2(g) <= q < pow2(g + 1),
    ensures
        s == 0 ==> s * pow2(g) + q == q && q < pow2(g + 1) && range_low(g, q) == q
            && range_high(g, q) == q,
        s >= 1 ==> s * pow2(g) + q >= pow2(g + 1),
        s >= 1 ==> bucket_shift(g, s * pow2(g) + q) == s,
        s >= 1 ==> range_low(g, s * pow2(g) + q) == q * pow2(s),
        s >= 1 ==> range_high(g, s * pow2(g) + q) + 1 == (q + 1) * pow2(s),
{
    lemma_pow2_unfold(g + 1);
    lemma_pow2_pos(s);
    lemma_index_decode(g, s, q);
    if s == 0 {
        assert(s * pow2(g) == 0) by (nonlinear_arith)
            requires
                s == 0,
        ;
    }
    if s >= 1 {
        lemma_mul_inequality(1, s as int, pow2(g) as int);
        let i = s * pow2(g) + q;
        assert(bucket_shift(g, i) == s);
        assert(i - s * pow2(g) == q);
        assert((q + 1) * pow2(s) == q * pow2(s) + pow2(s)) by (nonlinear_arith);
    }
}

/// Every value's index is below the bucket count.
pub proof fn lemma_index_below_total(g: nat, n: nat, v: nat)
    requires
        valid_powers(g, n),
    ensures
        index_of(g, n, v) < buckets_of(g, n),
{
    lemma_valid_powers_facts(g, n);
    if v >= pow2(g + 1) {
        lemma_log_index_facts(g, n, clamp_value(n, v));
    }
}

/// Indexing is monotone: larger values never land in lower
/// buckets.
pub proof fn lemma_index_monotone(g: nat, n: nat, v1: nat, v2: nat)
    requires
        valid_powers(g, n),
        v1 <= v2,
    ensures
        index_of(g, n, v1) <= index_of(g, n, v2),
{
    lemma_valid_powers_facts(g, n);
    if v2 < pow2(g + 1) {
        return;
    }
    let c2 = clamp_value(n, v2);
    lemma_log_index_facts(g, n, c2);
    let s2 = (msb(c2) - g) as nat;
    let q2 = c2 / pow2(s2);
    lemma_decoded_range(g, s2, q2);
    lemma2_to64();
    assert(c2 / 1 == c2);
    if v1 < pow2(g + 1) {
        return;
    }
    let c1 = clamp_value(n, v1);
    lemma_log_index_facts(g, n, c1);
    let s1 = (msb(c1) - g) as nat;
    let q1 = c1 / pow2(s1);
    lemma_msb_monotone(c1, c2);
    if s1 == s2 {
        lemma_pow2_pos(s1);
        lemma_div_is_ordered(c1 as int, c2 as int, pow2(s1) as int);
    } else {
        lemma_mul_inequality((s1 + 2) as int, (s2 + 1) as int, pow2(g) as int);
        assert((s1 + 2) * pow2(g) == s1 * pow2(g) + 2 * pow2(g)) by (nonlinear_arith);
        assert((s2 + 1) * pow2(g) == s2 * pow2(g) + pow2(g)) by (nonlinear_arith);
    }
}

/// A value (clamped to the trackable range) lies inside the
/// value range of its bucket.
pub proof fn lemma_value_in_its_bucket(g: nat, n: nat, v: nat)
    requires
        valid_powers(g, n),
    ensures
        range_low(g, index_of(g, n, v)) <= clamp_value(n, v) <= range_high(g, index_of(g, n, v)),
{
    lemma_valid_powers_facts(g, n);
    if v < pow2(g + 1) {
        return;
    }
    let c = clamp_value(n, v);
    lemma_log_index_facts(g, n, c);
    let s = (msb(c) - g) as nat;
    let q = c / pow2(s);
    lemma_decoded_range(g, s, q);
    lemma_pow2_pos(s);
    if s == 0 {
        lemma2_to64();
        assert(c / 1 == c);
    } else {
        vstd::arithmetic::div_mod::lemma_fundamental_div_mod(c as int, pow2(s) as int);
        vstd::arithmetic::div_mod::lemma_mod_bound(c as int, pow2(s) as int);
        lemma_mul_is_commutative(pow2(s) as int, q as int);
    }
}

/// Each bucket's two ends index back to the bucket itself: a
/// bucket's low end is its first value, its high end its last,
/// and both are trackable.
pub proof fn lemma_bucket_ends_index_back(g: nat, n: nat, i: nat)
    requires
        valid_powers(g, n),
        i < buckets_of(g, n),
    ensures
        range_low(g, i) <= range_high(g, i) <= max_value_of(n),
        index_of(g, n, range_low(g, i)) == i,
        index_of(g, n, range_high(g, i)) == i,
{
    lemma_valid_powers_facts(g, n);
    if i < pow2(g + 1) {
        return;
    }
    lemma_log_bucket_facts(g, n, i);
    let s = bucket_shift(g, i);
    let q = (i - s * pow2(g)) as nat;
    let low = range_low(g, i);
    let high = range_high(g, i);
    lemma_pow2_pos(s);
    lemma_pow2_mul(g, s);
    lemma_pow2_le(g + 1, g + s);
    assert(clamp_value(n, low) == low);
    assert(clamp_value(n, high) == high);
    assert(g + s + 1 == g + 1 + s);
    lemma_msb_unique(low, g + s);
    lemma_msb_unique(high, g + s);
    vstd::arithmetic::div_mod::lemma_div_by_multiple(q as int, pow2(s) as int);
    lemma_fundamental_div_mod_converse(high as int, pow2(s) as int, q as int, (pow2(s) - 1) as int);
}

/// The buckets partition `0..=max_value` in order: bucket 0
/// starts at 0, each bucket starts right after the previous one
/// ends, and the top bucket ends at `max_value`.
pub proof fn lemma_buckets_partition(g: nat, n: nat, i: nat)
    requires
        valid_powers(g, n),
        i + 1 < buckets_of(g, n),
    ensures
        range_low(g, 0) == 0,
        range_high(g, i) + 1 == range_low(g, i + 1),
        range_high(g, (buckets_of(g, n) - 1) as nat) == max_value_of(n),
{
    lemma_valid_powers_facts(g, n);
    lemma_pow2_pos(g);
    // The top bucket.
    let top = (buckets_of(g, n) - 1) as nat;
    let st = (n - g - 1) as nat;
    let qt = (pow2(g + 1) - 1) as nat;
    assert(top == st * pow2(g) + qt) by (nonlinear_arith)
        requires
            top == (n - g + 1) * pow2(g) - 1,
            st == n - g - 1,
            qt == pow2(g + 1) - 1,
            pow2(g + 1) == 2 * pow2(g),
    ;
    lemma_decoded_range(g, st, qt);
    if st >= 1 {
        lemma_pow2_mul(g + 1, st);
        assert(g + 1 + st == n);
    } else {
        assert(n == g + 1);
    }
    // Consecutive buckets.
    if i + 1 < pow2(g + 1) {
        return;
    }
    if i + 1 == pow2(g + 1) {
        lemma_decoded_range(g, 1, pow2(g));
        lemma_pow2_unfold(1);
        lemma_pow2_mul(g, 1);
        return;
    }
    lemma_log_bucket_facts(g, n, i);
    let s = bucket_shift(g, i);
    let q = (i - s * pow2(g)) as nat;
    if q + 1 < pow2(g + 1) {
        lemma_decoded_range(g, s, q + 1);
    } else {
        assert(i + 1 == (s + 1) * pow2(g) + pow2(g)) by (nonlinear_arith)
            requires
                i == s * pow2(g) + q,
                q + 1 == pow2(g + 1),
                pow2(g + 1) == 2 * pow2(g),
        ;
        lemma_pow2_unfold(g + 1);
        lemma_decoded_range(g, s + 1, pow2(g));
        lemma_pow2_mul(g, s + 1);
        lemma_pow2_mul(g + 1, s);
        assert(g + (s + 1) == g + 1 + s);
    }
}

/// Bucket ranges ascend: a later bucket never ends below an
/// earlier one.
pub proof fn lemma_range_high_monotone(g: nat, n: nat, i: nat, j: nat)
    requires
        valid_powers(g, n),
        i <= j < buckets_of(g, n),
    ensures
        range_high(g, i) <= range_high(g, j),
    decreases j - i,
{
    if i < j {
        lemma_range_high_monotone(g, n, i, (j - 1) as nat);
        lemma_buckets_partition(g, n, (j - 1) as nat);
        lemma_bucket_ends_index_back(g, n, j);
    }
}

/// Relative error: exact-region buckets hold one value; a
/// log-region bucket's width times `2^g` is at most its low end,
/// so every value in it is within `2^-g` of the low end.
pub proof fn lemma_bucket_width(g: nat, n: nat, i: nat)
    requires
        valid_powers(g, n),
        i < buckets_of(g, n),
    ensures
        i < pow2(g + 1) ==> range_low(g, i) == range_high(g, i),
        i >= pow2(g + 1) ==> (range_high(g, i) + 1 - range_low(g, i)) * pow2(g) <= range_low(g, i),
{
    if i >= pow2(g + 1) {
        lemma_log_bucket_facts(g, n, i);
        let s = bucket_shift(g, i);
        let q = (i - s * pow2(g)) as nat;
        lemma_pow2_pos(s);
        assert((range_high(g, i) + 1 - range_low(g, i)) == pow2(s)) by (nonlinear_arith)
            requires
                range_low(g, i) == q * pow2(s),
                range_high(g, i) + 1 == (q + 1) * pow2(s),
        ;
        lemma_mul_inequality(pow2(g) as int, q as int, pow2(s) as int);
        lemma_mul_is_commutative(pow2(g) as int, pow2(s) as int);
        lemma_mul_is_commutative(q as int, pow2(s) as int);
    }
}

/// Values at or above `max_value` all land in the top bucket.
pub proof fn lemma_over_range_clamps(g: nat, n: nat, v: nat)
    requires
        valid_powers(g, n),
        v >= max_value_of(n),
    ensures
        index_of(g, n, v) == buckets_of(g, n) - 1,
{
    lemma_valid_powers_facts(g, n);
    let top = (buckets_of(g, n) - 1) as nat;
    if top >= 1 {
        lemma_buckets_partition(g, n, (top - 1) as nat);
    }
    lemma_bucket_ends_index_back(g, n, top);
    if v < pow2(g + 1) {
        assert(v == max_value_of(n));
    } else if max_value_of(n) >= pow2(g + 1) {
        assert(clamp_value(n, v) == clamp_value(n, max_value_of(n)));
    } else {
        let m = max_value_of(n);
        assert(m == pow2(g + 1) - 1);
        lemma_msb_unique(m, g);
        lemma2_to64();
        assert(m / 1 == m);
        assert(0 * pow2(g) == 0);
        assert(log_index(g, m) == m);
        assert(index_of(g, n, v) == m);
    }
}

/// Shift `1` left by `e`, as `2^e`.
fn pow2_u64(e: u64) -> (r: u64)
    requires
        e < 64,
    ensures
        r == pow2(e as nat),
{
    proof {
        lemma_u64_pow2_no_overflow(e as nat);
        lemma_u64_shl_is_mul(1, e);
    }
    1u64 << e
}

/// `x >> s`, as `x / 2^s`.
fn shr_u64(x: u64, s: u64) -> (r: u64)
    requires
        s < 64,
    ensures
        r == x as nat / pow2(s as nat),
{
    proof {
        lemma_u64_shr_is_div(x, s);
    }
    x >> s
}

/// `x << s`, as `x * 2^s`, where that fits.
fn shl_u64(x: u64, s: u64) -> (r: u64)
    requires
        s < 64,
        x * pow2(s as nat) <= u64::MAX,
    ensures
        r == x * pow2(s as nat),
{
    proof {
        lemma_u64_shl_is_mul(x, s);
    }
    x << s
}

/// `x << s` on `usize`, as `x * 2^s`, where that fits in `u32`.
fn shl_usize(x: usize, s: usize) -> (r: usize)
    requires
        s < 32,
        x * pow2(s as nat) <= u32::MAX,
    ensures
        r == x * pow2(s as nat),
{
    proof {
        lemma_usize_shl_is_mul(x, s);
    }
    x << s
}

/// `x >> s` on `usize`, as `x / 2^s`.
fn shr_usize(x: usize, s: usize) -> (r: usize)
    requires
        s < 32,
    ensures
        r == x as nat / pow2(s as nat),
{
    proof {
        lemma_usize_shr_is_div(x, s);
    }
    x >> s
}

/// The two h2 powers plus the index math they induce.
///
/// - `grouping_power` (g): `2^g` buckets per power-of-two
///   range; relative value error ≤ `2^-g`.
/// - `max_value_power` (n): max trackable value is `2^n - 1`;
///   larger values clamp into the top bucket.
#[derive(Debug, Clone, Copy, PartialEq, Eq, Structural)]
pub struct Config {
    grouping_power: u8,
    max_value_power: u8,
}

impl Config {
    /// The grouping power g.
    pub closed spec fn g(self) -> nat {
        self.grouping_power as nat
    }

    /// The max value power n.
    pub closed spec fn n(self) -> nat {
        self.max_value_power as nat
    }

    #[verifier::type_invariant]
    closed spec fn powers_valid(self) -> bool {
        valid_powers(self.g(), self.n())
    }

    /// Validate and build a config; see [`Error`] for the
    /// rejection rules.
    pub fn new(grouping_power: u8, max_value_power: u8) -> (r: Result<Config, Error>)
        ensures
            r is Ok <==> valid_powers(grouping_power as nat, max_value_power as nat),
            r matches Ok(c) ==> c.g() == grouping_power && c.n() == max_value_power,
            r matches Err(e) ==> Some(e) == config_error(grouping_power as nat, max_value_power as nat),
    {
        if max_value_power < 1 || max_value_power > 64 {
            return Err(Error::MaxValuePower);
        }
        if grouping_power >= max_value_power || grouping_power > 62 {
            return Err(Error::GroupingPower);
        }
        let width = (max_value_power - grouping_power) as u64 + 1;
        proof {
            let g = grouping_power as nat;
            let k = (64 - g) as nat;
            lemma_pow2_linear(k);
            lemma_pow2_mul(k, g);
            lemma2_to64_rest();
            lemma_pow2_pos(g);
            lemma_mul_inequality(width as int, (pow2(k) - 1) as int, pow2(g) as int);
            assert((pow2(k) - 1) * pow2(g) == pow2(k) * pow2(g) - pow2(g)) by (nonlinear_arith);
            assert(width * pow2(g) == buckets_of(g, max_value_power as nat));
        }
        let buckets = shl_u64(width, grouping_power as u64);
        if buckets > u32::MAX as u64 {
            return Err(Error::TooManyBuckets);
        }
        Ok(Config { grouping_power, max_value_power })
    }

    /// The grouping power g.
    pub fn grouping_power(&self) -> (r: u8)
        ensures
            r == self.g(),
            valid_powers(self.g(), self.n()),
    {
        proof {
            use_type_invariant(self);
        }
        self.grouping_power
    }

    /// The max value power n.
    pub fn max_value_power(&self) -> (r: u8)
        ensures
            r == self.n(),
            valid_powers(self.g(), self.n()),
    {
        proof {
            use_type_invariant(self);
        }
        self.max_value_power
    }

    /// Largest trackable value, `2^n - 1`.
    pub fn max_value(&self) -> (r: u64)
        ensures
            r == max_value_of(self.n()),
    {
        proof {
            use_type_invariant(self);
            let n = self.n();
            let k = (64 - n) as nat;
            lemma_valid_powers_facts(self.g(), n);
            lemma_pow2_mul(n, k);
            lemma_pow2_pos(k);
            lemma_pow2_pos(n);
            assert(u64::MAX == (pow2(n) - 1) * pow2(k) + (pow2(k) - 1)) by (nonlinear_arith)
                requires
                    u64::MAX == pow2(n + k) - 1,
                    pow2(n + k) == pow2(n) * pow2(k),
            ;
            lemma_fundamental_div_mod_converse(
                u64::MAX as int,
                pow2(k) as int,
                (pow2(n) - 1) as int,
                (pow2(k) - 1) as int,
            );
        }
        shr_u64(u64::MAX, (64 - self.max_value_power) as u64)
    }

    /// Number of buckets, `(n - g + 1) * 2^g` — the exact
    /// counts-storage length this config requires.
    pub fn total_buckets(&self) -> (r: usize)
        ensures
            r == buckets_of(self.g(), self.n()),
            r <= u32::MAX,
    {
        proof {
            use_type_invariant(self);
            lemma_valid_powers_facts(self.g(), self.n());
        }
        shl_usize(
            (self.max_value_power - self.grouping_power) as usize + 1,
            self.grouping_power as usize,
        )
    }

    /// Bucket index for a value; values above
    /// [`max_value`](Config::max_value) clamp into the top
    /// bucket. O(1): a compare, a clz, two shifts.
    pub fn index_for(&self, value: u64) -> (r: usize)
        ensures
            r == index_of(self.g(), self.n(), value as nat),
            r < buckets_of(self.g(), self.n()),
    {
        proof {
            use_type_invariant(self);
            lemma_valid_powers_facts(self.g(), self.n());
        }
        let g = self.grouping_power;
        if value < pow2_u64((g + 1) as u64) {
            return value as usize;
        }
        let max = self.max_value();
        let clamped = if value > max {
            max
        } else {
            value
        };
        proof {
            lemma_log_index_facts(self.g(), self.n(), clamped as nat);
            lemma_leading_zeros_msb(clamped);
        }
        let power = 63 - clamped.leading_zeros() as u8;
        let log_bucket = power - g;
        let q = shr_u64(clamped, log_bucket as u64);
        proof {
            lemma_mul_inequality(log_bucket as int, (self.n() - g) as int, pow2(g as nat) as int);
        }
        shl_usize(log_bucket as usize, g as usize) + q as usize
    }

    /// Inclusive value range `(low, high)` of a bucket index.
    ///
    /// Meaningful for `index < total_buckets()`; past the last
    /// bucket the pair is meaningless (wrapping arithmetic, no
    /// panic).
    pub fn value_range(&self, index: usize) -> (r: (u64, u64))
        ensures
            index < buckets_of(self.g(), self.n()) ==> r.0 == range_low(self.g(), index as nat)
                && r.1 == range_high(self.g(), index as nat),
    {
        proof {
            use_type_invariant(self);
            lemma_valid_powers_facts(self.g(), self.n());
        }
        let g = self.grouping_power;
        if (index as u64) < pow2_u64((g + 1) as u64) {
            return (index as u64, index as u64);
        }
        if index >= self.total_buckets() {
            let log_bucket = ((index >> g) as u8).wrapping_sub(1);
            let offset = index.wrapping_sub((log_bucket as usize).wrapping_shl(g as u32));
            let low = (offset as u64).wrapping_shl(log_bucket as u32);
            return (low, low.wrapping_add(1u64.wrapping_shl(log_bucket as u32).wrapping_sub(1)));
        }
        proof {
            lemma_log_bucket_facts(self.g(), self.n(), index as nat);
        }
        let log_bucket = shr_usize(index, g as usize) as u8 - 1;
        proof {
            lemma_mul_inequality(log_bucket as int, (self.n() - g) as int, pow2(g as nat) as int);
        }
        let offset = index - shl_usize(log_bucket as usize, g as usize);
        proof {
            let sh = bucket_shift(g as nat, index as nat);
            assert(log_bucket == sh);
            assert(offset == index - sh * pow2(g as nat));
            lemma_pow2_pos(sh);
            assert(range_high(g as nat, index as nat) >= range_low(g as nat, index as nat));
            assert(offset * pow2(sh) == range_low(g as nat, index as nat));
        }
        let low = shl_u64(offset as u64, log_bucket as u64);
        (low, low + (pow2_u64(log_bucket as u64) - 1))
    }
}

} // verus!
