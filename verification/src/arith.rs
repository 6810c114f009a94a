//! Integer arithmetic the fixed-point signal pipeline is built on:
//! division rounded toward zero, an integer square root, and the small
//! facts about halving that bound the decomposer's recursion.

use vstd::prelude::*;

verus! {

use vstd::arithmetic::div_mod::{
    lemma_div_is_ordered, lemma_div_multiples_vanish, lemma_div_nonincreasing,
    lemma_div_pos_is_pos, lemma_fundamental_div_mod, lemma_fundamental_div_mod_converse,
    lemma_mod_division_less_than_divisor,
};

/// Integer division of `a` by a positive `b`, rounded toward zero: the
/// rounding every fixed-point quotient in this library uses.
pub open spec fn div_to_zero(a: int, b: int) -> int {
    if a >= 0 {
        a / b
    } else {
        -((-a) / b)
    }
}

/// Magnitude of `x`.
pub open spec fn mag(x: int) -> int {
    if x >= 0 {
        x
    } else {
        -x
    }
}

/// The smaller of `a` and `b`.
pub open spec fn min_i(a: int, b: int) -> int {
    if a <= b {
        a
    } else {
        b
    }
}

/// The larger of `a` and `b`.
pub open spec fn max_i(a: int, b: int) -> int {
    if a >= b {
        a
    } else {
        b
    }
}

/// `x` clamped into `[lo, hi]`.
pub open spec fn clamped(x: int, lo: int, hi: int) -> int {
    if x < lo {
        lo
    } else if x > hi {
        hi
    } else {
        x
    }
}

/// A product of bounded factors is bounded by the product of the bounds.
pub proof fn lemma_mul_magnitude(a: int, b: int, ca: int, cb: int)
    requires
        -ca <= a <= ca,
        -cb <= b <= cb,
    ensures
        -(ca * cb) <= a * b <= ca * cb,
{
    assert(-(ca * cb) <= a * b <= ca * cb) by (nonlinear_arith)
        requires
            -ca <= a <= ca,
            -cb <= b <= cb,
    ;
}

/// Division toward zero never increases magnitude, and a magnitude bound
/// on the dividend divides through.
pub proof fn lemma_div_to_zero_bound(a: int, b: int, c: int)
    requires
        b > 0,
        -(c * b) <= a <= c * b,
        0 <= c,
    ensures
        -c <= div_to_zero(a, b) <= c,
{
    vstd::arithmetic::mul::lemma_mul_is_commutative(b, c);
    lemma_div_multiples_vanish(c, b);
    if a >= 0 {
        lemma_div_pos_is_pos(a, b);
        lemma_div_is_ordered(a, c * b, b);
    } else {
        lemma_div_pos_is_pos(-a, b);
        lemma_div_is_ordered(-a, c * b, b);
    }
}

/// Division toward zero of a negated dividend negates the quotient.
pub proof fn lemma_div_to_zero_neg(a: int, b: int)
    requires
        b > 0,
    ensures
        div_to_zero(-a, b) == -div_to_zero(a, b),
{
}

/// An exact multiple divides back out, whatever its sign.
pub proof fn lemma_div_to_zero_exact(c: int, b: int)
    requires
        b > 0,
    ensures
        div_to_zero(c * b, b) == c,
{
    vstd::arithmetic::mul::lemma_mul_is_commutative(b, c);
    vstd::arithmetic::mul::lemma_mul_is_commutative(b, -c);
    if c >= 0 {
        lemma_div_multiples_vanish(c, b);
    } else {
        lemma_div_multiples_vanish(-c, b);
        assert(-(c * b) == (-c) * b) by (nonlinear_arith);
    }
}

/// Truncating division, `a / b` rounded toward zero.
///
/// The quotient is computed on magnitudes so that its relation to the
/// mathematical quotient is stated exactly by [`div_to_zero`].
pub fn div_trunc(a: i128, b: i128) -> (r: i128)
    requires
        b > 0,
        a > i128::MIN,
    ensures
        r == div_to_zero(a as int, b as int),
{
    if a >= 0 {
        let q: u128 = (a as u128) / (b as u128);
        proof {
            lemma_div_nonincreasing(a as int, b as int);
        }
        q as i128
    } else {
        let m: u128 = (-a) as u128;
        let q: u128 = m / (b as u128);
        proof {
            lemma_div_nonincreasing(m as int, b as int);
            lemma_div_pos_is_pos(m as int, b as int);
        }
        -(q as i128)
    }
}

/// Floor of the square root, as a recursive specification.
pub open spec fn sqrt_floor(v: int) -> int
    decreases v,
{
    if v <= 0 {
        0
    } else {
        let h: int = 2 * sqrt_floor(v / 4);
        if (h + 1) * (h + 1) <= v {
            h + 1
        } else {
            h
        }
    }
}

/// `sqrt_floor(v)` is the unique nonnegative root with `r^2 <= v < (r+1)^2`.
pub proof fn lemma_sqrt_floor(v: int)
    requires
        v >= 0,
    ensures
        0 <= sqrt_floor(v),
        sqrt_floor(v) * sqrt_floor(v) <= v,
        v < (sqrt_floor(v) + 1) * (sqrt_floor(v) + 1),
    decreases v,
{
    if v == 0 {
    } else {
        lemma_div_pos_is_pos(v, 4);
        lemma_div_nonincreasing(v, 4);
        lemma_sqrt_floor(v / 4);
        let t: int = sqrt_floor(v / 4);
        let h: int = 2 * t;
        lemma_fundamental_div_mod(v, 4);
        lemma_mod_division_less_than_divisor(v, 4);
        assert(4 * (v / 4) <= v && v < 4 * (v / 4) + 4);
        assert(h * h == 4 * (t * t)) by (nonlinear_arith)
            requires
                h == 2 * t,
        ;
        assert((h + 2) * (h + 2) == 4 * ((t + 1) * (t + 1))) by (nonlinear_arith)
            requires
                h == 2 * t,
        ;
        assert(h * h <= v);
        assert(v < (h + 2) * (h + 2));
    }
}

/// Any root satisfying the square-root characterization is `sqrt_floor`.
pub proof fn lemma_sqrt_unique(v: int, r: int)
    requires
        0 <= r,
        r * r <= v,
        v < (r + 1) * (r + 1),
    ensures
        r == sqrt_floor(v),
{
    assert(v >= 0) by (nonlinear_arith)
        requires
            0 <= r,
            r * r <= v,
    ;
    lemma_sqrt_floor(v);
    let s: int = sqrt_floor(v);
    if r < s {
        assert((r + 1) * (r + 1) <= s * s) by (nonlinear_arith)
            requires
                0 <= r + 1 <= s,
        ;
    }
    if s < r {
        assert((s + 1) * (s + 1) <= r * r) by (nonlinear_arith)
            requires
                0 <= s + 1 <= r,
        ;
    }
}

/// Floor of the square root, executable: binary search on the root.
pub fn isqrt(v: u128) -> (r: u128)
    requires
        v < 0x4000_0000_0000_0000_0000_0000_0000_0000,
    ensures
        r == sqrt_floor(v as int),
        r * r <= v < (r + 1) * (r + 1),
{
    let mut lo: u128 = 0;
    let mut hi: u128 = 0x8000_0000_0000_0000;
    while hi - lo > 1
        invariant
            lo < hi,
            hi <= 0x8000_0000_0000_0000,
            lo * lo <= v,
            v < hi * hi,
        decreases hi - lo,
    {
        let diff: u128 = hi - lo;
        let mid: u128 = lo + diff / 2;
        assert(lo < mid < hi);
        assert(mid * mid < 0x1_0000_0000_0000_0000_0000_0000_0000_0000) by (nonlinear_arith)
            requires
                mid < 0x8000_0000_0000_0000,
        ;
        if mid * mid <= v {
            lo = mid;
        } else {
            hi = mid;
        }
    }
    proof {
        assert(hi == lo + 1);
        lemma_sqrt_unique(v as int, lo as int);
    }
    lo
}

/// How many halvings of `n`, taking the larger half each time, reach a
/// segment shorter than two: the most descents the decomposer can make
/// under any segment of length `n`.
pub open spec fn descents(n: int) -> int
    decreases n,
{
    if n < 2 {
        0
    } else {
        1 + descents(n - n / 2)
    }
}

/// `2^k`.
pub open spec fn two_to(k: nat) -> int
    decreases k,
{
    if k == 0 {
        1
    } else {
        2 * two_to((k - 1) as nat)
    }
}

/// Floor of the base-two logarithm (zero below two).
pub open spec fn floor_log2(n: int) -> int
    decreases n,
{
    if n < 2 {
        0
    } else {
        1 + floor_log2(n / 2)
    }
}

/// One doubling step of `two_to`, for a symbolic exponent.
pub proof fn lemma_two_to_unfold(k: nat)
    requires
        k >= 1,
    ensures
        two_to(k) == 2 * two_to((k - 1) as nat),
{
}

/// The larger half is the rounded-up half.
pub proof fn lemma_ceil_half(n: int)
    requires
        n >= 0,
    ensures
        n - n / 2 == (n + 1) / 2,
        n / 2 <= n - n / 2 <= n,
        n >= 2 ==> n - n / 2 < n,
{
    lemma_fundamental_div_mod(n, 2);
    lemma_mod_division_less_than_divisor(n, 2);
    if n % 2 == 0 {
        lemma_fundamental_div_mod_converse(n + 1, 2, n / 2, 1);
    } else {
        lemma_fundamental_div_mod_converse(n + 1, 2, n / 2 + 1, 0);
    }
}

pub proof fn lemma_descents_nonneg(n: int)
    ensures
        descents(n) >= 0,
    decreases n,
{
    if n >= 2 {
        lemma_ceil_half(n);
        lemma_descents_nonneg(n - n / 2);
    }
}

/// More samples never need fewer descents.
pub proof fn lemma_descents_monotone(m: int, n: int)
    requires
        m <= n,
    ensures
        descents(m) <= descents(n),
    decreases n,
{
    if n < 2 {
    } else if m < 2 {
        lemma_descents_nonneg(n);
    } else {
        lemma_ceil_half(m);
        lemma_ceil_half(n);
        lemma_div_is_ordered(m + 1, n + 1, 2);
        lemma_descents_monotone(m - m / 2, n - n / 2);
    }
}

/// A segment of at most `2^k` samples is exhausted within `k` descents.
pub proof fn lemma_descents_pow(k: nat, n: int)
    requires
        n <= two_to(k),
    ensures
        descents(n) <= k,
    decreases k,
{
    if n < 2 {
    } else {
        assert(two_to(0) == 1);
        assert(k >= 1);
        lemma_ceil_half(n);
        let k1: nat = (k - 1) as nat;
        assert((two_to(k) + 1) / 2 == two_to(k1)) by {
            lemma_fundamental_div_mod_converse(two_to(k) + 1, 2, two_to(k1), 1);
        }
        lemma_div_is_ordered(n + 1, two_to(k) + 1, 2);
        lemma_descents_pow(k1, n - n / 2);
    }
}

/// `2^32`, step by step: each assertion unfolds one doubling.
pub proof fn lemma_two_to_32()
    ensures
        two_to(32) == 0x1_0000_0000,
{
    assert(two_to(0) == 1);
    assert(two_to(4) == 0x10) by {
        assert(two_to(1) == 2);
        assert(two_to(2) == 4);
        assert(two_to(3) == 8);
    }
    assert(two_to(8) == 0x100) by {
        assert(two_to(5) == 0x20);
        assert(two_to(6) == 0x40);
        assert(two_to(7) == 0x80);
    }
    assert(two_to(12) == 0x1000) by {
        assert(two_to(9) == 0x200);
        assert(two_to(10) == 0x400);
        assert(two_to(11) == 0x800);
    }
    assert(two_to(16) == 0x1_0000) by {
        assert(two_to(13) == 0x2000);
        assert(two_to(14) == 0x4000);
        assert(two_to(15) == 0x8000);
    }
    assert(two_to(20) == 0x10_0000) by {
        assert(two_to(17) == 0x2_0000);
        assert(two_to(18) == 0x4_0000);
        assert(two_to(19) == 0x8_0000);
    }
    assert(two_to(24) == 0x100_0000) by {
        assert(two_to(21) == 0x20_0000);
        assert(two_to(22) == 0x40_0000);
        assert(two_to(23) == 0x80_0000);
    }
    assert(two_to(28) == 0x1000_0000) by {
        assert(two_to(25) == 0x200_0000);
        assert(two_to(26) == 0x400_0000);
        assert(two_to(27) == 0x800_0000);
    }
    assert(two_to(32) == 0x1_0000_0000) by {
        assert(two_to(29) == 0x2000_0000);
        assert(two_to(30) == 0x4000_0000);
        assert(two_to(31) == 0x8000_0000);
    }
}

/// Every positive `n` lies below `2^(floor_log2(n) + 1)`.
pub proof fn lemma_floor_log2(n: int)
    requires
        n >= 1,
    ensures
        floor_log2(n) >= 0,
        n < two_to((floor_log2(n) + 1) as nat),
    decreases n,
{
    if n < 2 {
        lemma_two_to_unfold(1);
        assert(two_to(0) == 1);
    } else {
        lemma_div_pos_is_pos(n, 2);
        lemma_div_nonincreasing(n, 2);
        assert(1 <= n / 2 < n) by {
            lemma_fundamental_div_mod(n, 2);
            lemma_mod_division_less_than_divisor(n, 2);
        }
        lemma_floor_log2(n / 2);
        lemma_fundamental_div_mod(n, 2);
        lemma_mod_division_less_than_divisor(n, 2);
        assert(n <= 2 * (n / 2) + 1);
        assert(floor_log2(n) == 1 + floor_log2(n / 2));
        let t: int = two_to((floor_log2(n / 2) + 1) as nat);
        assert(n < 2 * t);
        lemma_two_to_unfold((floor_log2(n) + 1) as nat);
        assert(two_to((floor_log2(n) + 1) as nat) == 2 * t);
    }
}

/// The descent count of any positive `n` is at most `floor_log2(n) + 1`.
pub proof fn lemma_descents_log2(n: int)
    requires
        n >= 1,
    ensures
        descents(n) <= floor_log2(n) + 1,
{
    lemma_floor_log2(n);
    lemma_descents_pow((floor_log2(n) + 1) as nat, n);
}

} // verus!
