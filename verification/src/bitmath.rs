//! Powers of two, the most significant bit, and the facts the
//! index math rests on.
use vstd::prelude::*;
use vstd::arithmetic::power2::{
    pow2, lemma_pow2_pos, lemma_pow2_unfold, lemma_pow2_adds, lemma_pow2_strictly_increases,
    lemma2_to64, lemma2_to64_rest,
};
use vstd::arithmetic::div_mod::{
    lemma_fundamental_div_mod_converse, lemma_div_is_ordered, lemma_fundamental_div_mod,
    lemma_multiply_divide_lt,
};
use vstd::arithmetic::mul::{
    lemma_mul_inequality, lemma_mul_strict_inequality, lemma_mul_is_associative,
    lemma_mul_is_commutative, lemma_mul_is_distributive_add, lemma_mul_is_distributive_sub,
};
use vstd::std_specs::bits::u64_leading_zeros;

verus! {

/// Position of the most significant set bit, `floor(log2 v)`;
/// 0 for 0 and 1.
pub open spec fn msb(v: nat) -> nat
    decreases v,
{
    if v < 2 {
        0
    } else {
        1 + msb(v / 2)
    }
}

/// `pow2` is monotone (non-strict form).
pub proof fn lemma_pow2_le(e1: nat, e2: nat)
    requires
        e1 <= e2,
    ensures
        pow2(e1) <= pow2(e2),
{
    if e1 < e2 {
        lemma_pow2_strictly_increases(e1, e2);
    }
}

/// `2^msb(v) <= v < 2^(msb(v)+1)` for every positive `v`.
pub proof fn lemma_msb_bounds(v: nat)
    requires
        v >= 1,
    ensures
        pow2(msb(v)) <= v < pow2(msb(v) + 1),
    decreases v,
{
    if v < 2 {
        lemma2_to64();
    } else {
        lemma_msb_bounds(v / 2);
        let m = msb(v / 2);
        lemma_pow2_unfold(m + 1);
        lemma_pow2_unfold(m + 2);
    }
}

/// The bit position bracketing `v` is unique.
pub proof fn lemma_msb_unique(v: nat, k: nat)
    requires
        pow2(k) <= v < pow2(k + 1),
    ensures
        msb(v) == k,
{
    lemma_pow2_pos(k);
    lemma_msb_bounds(v);
    if msb(v) < k {
        lemma_pow2_le(msb(v) + 1, k);
    } else if msb(v) > k {
        lemma_pow2_le(k + 1, msb(v));
    }
}

/// `msb` is monotone.
pub proof fn lemma_msb_monotone(a: nat, b: nat)
    requires
        1 <= a <= b,
    ensures
        msb(a) <= msb(b),
{
    lemma_msb_bounds(a);
    lemma_msb_bounds(b);
    if msb(a) > msb(b) {
        lemma_pow2_le(msb(b) + 1, msb(a));
    }
}

/// For a positive `c`, `leading_zeros` is `63 - msb(c)`.
pub proof fn lemma_leading_zeros_msb(c: u64)
    requires
        c > 0,
    ensures
        u64_leading_zeros(c) == 63 - msb(c as nat),
    decreases c,
{
    reveal(u64_leading_zeros);
    if c < 2 {
        assert(c == 1);
        assert(u64_leading_zeros(0) == 64);
        assert(u64_leading_zeros(1) == u64_leading_zeros(0) - 1);
    } else {
        lemma_leading_zeros_msb(c / 2);
    }
}

/// `2^(a+b) == 2^a * 2^b`, in the order the callers use.
pub proof fn lemma_pow2_mul(a: nat, b: nat)
    ensures
        pow2(a + b) == pow2(a) * pow2(b),
        pow2(a + b) == pow2(b) * pow2(a),
{
    lemma_pow2_adds(a, b);
    lemma_mul_is_commutative(pow2(a) as int, pow2(b) as int);
}

/// Dividing a value of bit length `g + s + 1` by `2^s` leaves a
/// quotient in `[2^g, 2^(g+1))`.
pub proof fn lemma_quotient_range(c: nat, g: nat, s: nat)
    requires
        pow2(g + s) <= c < pow2(g + s + 1),
    ensures
        pow2(g) <= c / pow2(s) < pow2(g + 1),
{
    lemma_pow2_pos(s);
    lemma_pow2_mul(g, s);
    lemma_pow2_mul(g + 1, s);
    assert(g + s + 1 == (g + 1) + s);
    lemma_div_is_ordered((pow2(g) * pow2(s)) as int, c as int, pow2(s) as int);
    vstd::arithmetic::div_mod::lemma_div_by_multiple(pow2(g) as int, pow2(s) as int);
    lemma_multiply_divide_lt(c as int, pow2(s) as int, pow2(g + 1) as int);
}

/// A bucket index `s * 2^g + q` with `q` in `[2^g, 2^(g+1))`
/// decodes back to `s` and `q`.
pub proof fn lemma_index_decode(g: nat, s: nat, q: nat)
    requires
        pow2(g) <= q < pow2(g + 1),
    ensures
        (s * pow2(g) + q) / pow2(g) == s + 1,
        (s * pow2(g) + q) % pow2(g) == q - pow2(g),
        (s * pow2(g) + q) - s * pow2(g) == q,
{
    lemma_pow2_pos(g);
    lemma_pow2_unfold(g + 1);
    let r = q - pow2(g);
    assert(s * pow2(g) + q == (s + 1) * pow2(g) + r) by {
        lemma_mul_is_distributive_add(pow2(g) as int, s as int, 1);
        lemma_mul_is_commutative(pow2(g) as int, s as int);
        lemma_mul_is_commutative(pow2(g) as int, (s + 1) as int);
    }
    lemma_fundamental_div_mod_converse(
        (s * pow2(g) + q) as int,
        pow2(g) as int,
        (s + 1) as int,
        r as int,
    );
}

/// `k + 2 <= 2^k` for `k >= 2`.
pub proof fn lemma_pow2_linear(k: nat)
    requires
        k >= 2,
    ensures
        k + 2 <= pow2(k),
    decreases k,
{
    if k == 2 {
        lemma2_to64();
    } else {
        lemma_pow2_linear((k - 1) as nat);
        lemma_pow2_unfold(k);
        lemma_pow2_pos((k - 1) as nat);
    }
}

} // verus!
