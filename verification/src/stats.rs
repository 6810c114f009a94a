//! Population statistics over fixed-point signals: mean, standard
//! deviation, covariance and correlation.
//!
//! Each executable function returns exactly the value of its spec-level
//! model, which states the arithmetic over unbounded integers with
//! division rounded toward zero.  Covariance of unequal-length signals
//! pairs samples by position and truncates to the shorter length.  A
//! correlation whose denominator vanishes (a constant signal) is defined
//! to be zero — the zero-confidence policy — and every correlation is
//! clamped into `[-SCALE, SCALE]`, the interval the exact real value
//! lies in.

use vstd::prelude::*;

verus! {

use crate::arith::{
    clamped, div_to_zero, div_trunc, isqrt, lemma_div_to_zero_bound, lemma_div_to_zero_exact,
    lemma_div_to_zero_neg, lemma_mul_magnitude, lemma_sqrt_floor, lemma_sqrt_unique, min_i,
    sqrt_floor,
};
use crate::{bounded, ints, LEN_LIMIT, SCALE, WORK_LIMIT};
use vstd::arithmetic::div_mod::{
    lemma_div_is_ordered, lemma_div_multiples_vanish, lemma_div_pos_is_pos,
};

/// Sum of all samples.
pub open spec fn sum_of(s: Seq<int>) -> int
    decreases s.len(),
{
    if s.len() == 0 {
        0
    } else {
        sum_of(s.drop_last()) + s.last()
    }
}

/// Arithmetic mean, rounded toward zero (meaningful for nonempty `s`).
pub open spec fn mean_spec(s: Seq<int>) -> int {
    div_to_zero(sum_of(s), s.len() as int)
}

/// Sum of squared deviations from `m`.
pub open spec fn sq_dev_sum(s: Seq<int>, m: int) -> int
    decreases s.len(),
{
    if s.len() == 0 {
        0
    } else {
        sq_dev_sum(s.drop_last(), m) + (s.last() - m) * (s.last() - m)
    }
}

/// Population variance: mean of the squared deviations.
pub open spec fn var_spec(s: Seq<int>) -> int {
    div_to_zero(sq_dev_sum(s, mean_spec(s)), s.len() as int)
}

/// Population standard deviation: floor square root of the variance.
pub open spec fn stddev_spec(s: Seq<int>) -> int {
    sqrt_floor(var_spec(s))
}

/// Sum over the first `k` positions of the products of deviations.
pub open spec fn cross_sum(a: Seq<int>, b: Seq<int>, ma: int, mb: int, k: int) -> int
    decreases k,
{
    if k <= 0 {
        0
    } else {
        cross_sum(a, b, ma, mb, k - 1) + (a[k - 1] - ma) * (b[k - 1] - mb)
    }
}

/// Population covariance, paired by position and truncated to the
/// shorter signal; each deviation is taken from its own signal's mean.
pub open spec fn cov_spec(a: Seq<int>, b: Seq<int>) -> int {
    let m: int = min_i(a.len() as int, b.len() as int);
    div_to_zero(cross_sum(a, b, mean_spec(a), mean_spec(b), m), m)
}

/// Correlation scaled by `SCALE`: covariance over the product of the
/// standard deviations, zero when either deviation vanishes, clamped
/// into `[-SCALE, SCALE]`.
pub open spec fn corr_spec(a: Seq<int>, b: Seq<int>) -> int {
    let sa: int = stddev_spec(a);
    let sb: int = stddev_spec(b);
    if min_i(a.len() as int, b.len() as int) == 0 || sa == 0 || sb == 0 {
        0
    } else {
        clamped(
            div_to_zero(cov_spec(a, b) * (SCALE as int), sa * sb),
            -(SCALE as int),
            SCALE as int,
        )
    }
}

proof fn lemma_sum_take_step(s: Seq<int>, j: int)
    requires
        0 <= j < s.len(),
    ensures
        sum_of(s.take(j + 1)) == sum_of(s.take(j)) + s[j],
{
    assert(s.take(j + 1).drop_last() =~= s.take(j));
    assert(s.take(j + 1).last() == s[j]);
}

proof fn lemma_sq_dev_take_step(s: Seq<int>, m: int, j: int)
    requires
        0 <= j < s.len(),
    ensures
        sq_dev_sum(s.take(j + 1), m) == sq_dev_sum(s.take(j), m) + (s[j] - m) * (s[j] - m),
{
    assert(s.take(j + 1).drop_last() =~= s.take(j));
    assert(s.take(j + 1).last() == s[j]);
}

/// Arithmetic mean of a nonempty signal.
pub fn expected_value(data: &Vec<i64>) -> (r: i64)
    requires
        data.len() > 0,
        data.len() <= LEN_LIMIT,
        bounded(ints(data@), WORK_LIMIT as int),
    ensures
        r as int == mean_spec(ints(data@)),
        -WORK_LIMIT <= r <= WORK_LIMIT,
{
    let n: usize = data.len();
    let mut sum: i128 = 0;
    let mut i: usize = 0;
    while i < n
        invariant
            i <= n,
            n == data.len(),
            n <= LEN_LIMIT,
            bounded(ints(data@), WORK_LIMIT as int),
            sum == sum_of(ints(data@).take(i as int)),
            -((i as int) * (WORK_LIMIT as int)) <= sum <= (i as int) * (WORK_LIMIT as int),
        decreases n - i,
    {
        proof {
            lemma_sum_take_step(ints(data@), i as int);
            assert(-WORK_LIMIT <= ints(data@)[i as int] <= WORK_LIMIT);
        }
        sum = sum + (data[i] as i128);
        i += 1;
    }
    proof {
        assert(ints(data@).take(n as int) =~= ints(data@));
        vstd::arithmetic::mul::lemma_mul_is_commutative(n as int, WORK_LIMIT as int);
        lemma_div_to_zero_bound(sum as int, n as int, WORK_LIMIT as int);
    }
    let m: i128 = div_trunc(sum, n as i128);
    m as i64
}

/// Population standard deviation of a nonempty signal.
pub fn standard_deviation(data: &Vec<i64>) -> (r: i64)
    requires
        data.len() > 0,
        data.len() <= LEN_LIMIT,
        bounded(ints(data@), WORK_LIMIT as int),
    ensures
        r as int == stddev_spec(ints(data@)),
        0 <= r <= 2 * WORK_LIMIT,
{
    let e: i64 = expected_value(data);
    let n: usize = data.len();
    let mut acc: i128 = 0;
    let mut i: usize = 0;
    while i < n
        invariant
            i <= n,
            n == data.len(),
            n <= LEN_LIMIT,
            bounded(ints(data@), WORK_LIMIT as int),
            -WORK_LIMIT <= e <= WORK_LIMIT,
            acc == sq_dev_sum(ints(data@).take(i as int), e as int),
            0 <= acc <= (i as int) * 0x1000_0000_0000_0000_0000_0000,
        decreases n - i,
    {
        proof {
            lemma_sq_dev_take_step(ints(data@), e as int, i as int);
            assert(-WORK_LIMIT <= ints(data@)[i as int] <= WORK_LIMIT);
            lemma_mul_magnitude(
                ints(data@)[i as int] - e,
                ints(data@)[i as int] - e,
                2 * (WORK_LIMIT as int),
                2 * (WORK_LIMIT as int),
            );
            assert((ints(data@)[i as int] - e) * (ints(data@)[i as int] - e) >= 0)
                by (nonlinear_arith);
        }
        let d: i128 = (data[i] as i128) - (e as i128);
        acc = acc + d * d;
        i += 1;
    }
    proof {
        assert(ints(data@).take(n as int) =~= ints(data@));
        vstd::arithmetic::mul::lemma_mul_is_commutative(n as int, 0x1000_0000_0000_0000_0000_0000);
        lemma_div_to_zero_bound(acc as int, n as int, 0x1000_0000_0000_0000_0000_0000);
        lemma_div_pos_is_pos(acc as int, n as int);
    }
    let v: i128 = div_trunc(acc, n as i128);
    let s: u128 = isqrt(v as u128);
    proof {
        let vv: int = v as int;
        assert(s * s <= vv < (s + 1) * (s + 1));
        assert(s <= 2 * (WORK_LIMIT as int)) by (nonlinear_arith)
            requires
                s * s <= vv,
                vv <= 0x1000_0000_0000_0000_0000_0000,
                s >= 0,
        ;
    }
    s as i64
}

/// Population covariance of two nonempty signals, paired by position and
/// truncated to the shorter signal.
pub fn covariance(data0: &Vec<i64>, data1: &Vec<i64>) -> (r: i128)
    requires
        data0.len() > 0,
        data1.len() > 0,
        data0.len() <= LEN_LIMIT,
        data1.len() <= LEN_LIMIT,
        bounded(ints(data0@), WORK_LIMIT as int),
        bounded(ints(data1@), WORK_LIMIT as int),
    ensures
        r as int == cov_spec(ints(data0@), ints(data1@)),
        -0x1000_0000_0000_0000_0000_0000 <= r <= 0x1000_0000_0000_0000_0000_0000,
{
    let e0: i64 = expected_value(data0);
    let e1: i64 = expected_value(data1);
    let m: usize = if data0.len() < data1.len() {
        data0.len()
    } else {
        data1.len()
    };
    let mut acc: i128 = 0;
    let mut k: usize = 0;
    while k < m
        invariant
            k <= m,
            m == min_i(data0.len() as int, data1.len() as int),
            m <= data0.len(),
            m <= data1.len(),
            m <= LEN_LIMIT,
            bounded(ints(data0@), WORK_LIMIT as int),
            bounded(ints(data1@), WORK_LIMIT as int),
            -WORK_LIMIT <= e0 <= WORK_LIMIT,
            -WORK_LIMIT <= e1 <= WORK_LIMIT,
            acc == cross_sum(ints(data0@), ints(data1@), e0 as int, e1 as int, k as int),
            -((k as int) * 0x1000_0000_0000_0000_0000_0000) <= acc <= (k as int)
                * 0x1000_0000_0000_0000_0000_0000,
        decreases m - k,
    {
        proof {
            assert(-WORK_LIMIT <= ints(data0@)[k as int] <= WORK_LIMIT);
            assert(-WORK_LIMIT <= ints(data1@)[k as int] <= WORK_LIMIT);
            lemma_mul_magnitude(
                ints(data0@)[k as int] - e0,
                ints(data1@)[k as int] - e1,
                2 * (WORK_LIMIT as int),
                2 * (WORK_LIMIT as int),
            );
        }
        let d0: i128 = (data0[k] as i128) - (e0 as i128);
        let d1: i128 = (data1[k] as i128) - (e1 as i128);
        acc = acc + d0 * d1;
        k += 1;
    }
    proof {
        vstd::arithmetic::mul::lemma_mul_is_commutative(m as int, 0x1000_0000_0000_0000_0000_0000);
        lemma_div_to_zero_bound(acc as int, m as int, 0x1000_0000_0000_0000_0000_0000);
    }
    div_trunc(acc, m as i128)
}

/// Correlation of two nonempty signals, scaled by `SCALE`, zero when
/// either signal has vanishing deviation, clamped into `[-SCALE, SCALE]`.
pub fn correlation(data0: &Vec<i64>, data1: &Vec<i64>) -> (r: i64)
    requires
        data0.len() > 0,
        data1.len() > 0,
        data0.len() <= LEN_LIMIT,
        data1.len() <= LEN_LIMIT,
        bounded(ints(data0@), WORK_LIMIT as int),
        bounded(ints(data1@), WORK_LIMIT as int),
    ensures
        r as int == corr_spec(ints(data0@), ints(data1@)),
        -SCALE <= r <= SCALE,
{
    let s0: i64 = standard_deviation(data0);
    let s1: i64 = standard_deviation(data1);
    if s0 == 0 || s1 == 0 {
        return 0;
    }
    let c: i128 = covariance(data0, data1);
    proof {
        lemma_mul_magnitude(s0 as int, s1 as int, 2 * (WORK_LIMIT as int), 2 * (WORK_LIMIT as int));
        assert((s0 as int) * (s1 as int) >= 1) by (nonlinear_arith)
            requires
                s0 >= 1,
                s1 >= 1,
        ;
        lemma_mul_magnitude(
            c as int,
            SCALE as int,
            0x1000_0000_0000_0000_0000_0000,
            SCALE as int,
        );
    }
    let denom: i128 = (s0 as i128) * (s1 as i128);
    let num: i128 = c * (SCALE as i128);
    let q: i128 = div_trunc(num, denom);
    let cl: i128 = if q > SCALE as i128 {
        SCALE as i128
    } else if q < -(SCALE as i128) {
        -(SCALE as i128)
    } else {
        q
    };
    cl as i64
}

/// A constant signal's mean is that constant, and its standard
/// deviation is zero.
pub proof fn lemma_constant_stats(s: Seq<int>, c: int)
    requires
        s.len() > 0,
        forall|i: int| 0 <= i < s.len() ==> s[i] == c,
    ensures
        mean_spec(s) == c,
        stddev_spec(s) == 0,
{
    lemma_sum_constant(s, c);
    lemma_div_to_zero_exact(c, s.len() as int);
    vstd::arithmetic::mul::lemma_mul_is_commutative(s.len() as int, c);
    assert(mean_spec(s) == c);
    lemma_sq_dev_constant(s, c);
    assert(var_spec(s) == 0);
    lemma_sqrt_floor(0);
    lemma_sqrt_unique(0, 0);
}

proof fn lemma_sum_constant(s: Seq<int>, c: int)
    requires
        forall|i: int| 0 <= i < s.len() ==> s[i] == c,
    ensures
        sum_of(s) == (s.len() as int) * c,
    decreases s.len(),
{
    if s.len() == 0 {
        assert(0int * c == 0) by (nonlinear_arith);
    } else {
        lemma_sum_constant(s.drop_last(), c);
        assert(((s.len() - 1) as int) * c + c == (s.len() as int) * c) by (nonlinear_arith);
    }
}

proof fn lemma_sq_dev_constant(s: Seq<int>, c: int)
    requires
        forall|i: int| 0 <= i < s.len() ==> s[i] == c,
    ensures
        sq_dev_sum(s, c) == 0,
    decreases s.len(),
{
    if s.len() > 0 {
        assert(forall|i: int| 0 <= i < s.drop_last().len() ==> #[trigger] s.drop_last()[i]
            == s[i]);
        lemma_sq_dev_constant(s.drop_last(), c);
        assert(s.last() == c);
        assert((s.last() - c) * (s.last() - c) == 0) by (nonlinear_arith)
            requires
                s.last() == c,
        ;
    }
}

/// The cross sum of a signal against itself is its squared-deviation sum.
proof fn lemma_cross_self(s: Seq<int>, m: int, k: int)
    requires
        0 <= k <= s.len(),
    ensures
        cross_sum(s, s, m, m, k) == sq_dev_sum(s.take(k), m),
    decreases k,
{
    if k == 0 {
        assert(s.take(0) =~= Seq::<int>::empty());
    } else {
        lemma_cross_self(s, m, k - 1);
        lemma_sq_dev_take_step(s, m, k - 1);
    }
}

/// A signal with positive variance correlates with itself exactly at
/// `SCALE`: the fixed-point statement of unit self-correlation.
pub proof fn lemma_correlation_self(s: Seq<int>)
    requires
        s.len() > 0,
        var_spec(s) > 0,
    ensures
        corr_spec(s, s) == SCALE,
{
    let n: int = s.len() as int;
    let v: int = var_spec(s);
    lemma_cross_self(s, mean_spec(s), n);
    assert(s.take(n) =~= s);
    assert(cov_spec(s, s) == v);
    let sd: int = stddev_spec(s);
    lemma_sq_dev_nonneg(s, mean_spec(s));
    lemma_div_pos_is_pos(sq_dev_sum(s, mean_spec(s)), n);
    lemma_sqrt_floor(v);
    assert(sd >= 1) by {
        if sd == 0 {
            assert((sd + 1) * (sd + 1) == 1) by (nonlinear_arith)
                requires
                    sd == 0,
            ;
            assert(v < 1);
        }
    }
    let den: int = sd * sd;
    assert(den >= 1 && den <= v) by (nonlinear_arith)
        requires
            sd >= 1,
            sd * sd <= v,
            den == sd * sd,
    ;
    assert(den * (SCALE as int) <= v * (SCALE as int)) by (nonlinear_arith)
        requires
            den <= v,
    ;
    lemma_div_multiples_vanish(SCALE as int, den);
    vstd::arithmetic::mul::lemma_mul_is_commutative(den, SCALE as int);
    lemma_div_is_ordered(den * (SCALE as int), v * (SCALE as int), den);
    assert(div_to_zero(v * (SCALE as int), den) >= SCALE);
    assert(clamped(div_to_zero(v * (SCALE as int), den), -(SCALE as int), SCALE as int)
        == SCALE);
}

proof fn lemma_sq_dev_nonneg(s: Seq<int>, m: int)
    ensures
        sq_dev_sum(s, m) >= 0,
    decreases s.len(),
{
    if s.len() > 0 {
        lemma_sq_dev_nonneg(s.drop_last(), m);
        assert((s.last() - m) * (s.last() - m) >= 0) by (nonlinear_arith);
    }
}

/// The elementwise negation of a signal.
pub open spec fn negated(s: Seq<int>) -> Seq<int> {
    s.map_values(|x: int| -x)
}

proof fn lemma_sum_negated(s: Seq<int>)
    ensures
        sum_of(negated(s)) == -sum_of(s),
    decreases s.len(),
{
    if s.len() > 0 {
        lemma_sum_negated(s.drop_last());
        assert(negated(s).drop_last() =~= negated(s.drop_last()));
        assert(negated(s).last() == -s.last());
    }
}

proof fn lemma_sq_dev_negated(s: Seq<int>, m: int)
    ensures
        sq_dev_sum(negated(s), -m) == sq_dev_sum(s, m),
    decreases s.len(),
{
    if s.len() > 0 {
        lemma_sq_dev_negated(s.drop_last(), m);
        assert(negated(s).drop_last() =~= negated(s.drop_last()));
        assert(negated(s).last() == -s.last());
        assert((-s.last() - (-m)) * (-s.last() - (-m)) == (s.last() - m) * (s.last() - m))
            by (nonlinear_arith);
    }
}

proof fn lemma_cross_negated(s: Seq<int>, m: int, k: int)
    requires
        0 <= k <= s.len(),
    ensures
        cross_sum(s, negated(s), m, -m, k) == -sq_dev_sum(s.take(k), m),
    decreases k,
{
    if k == 0 {
        assert(s.take(0) =~= Seq::<int>::empty());
    } else {
        lemma_cross_negated(s, m, k - 1);
        lemma_sq_dev_take_step(s, m, k - 1);
        assert(negated(s)[k - 1] == -s[k - 1]);
        assert((s[k - 1] - m) * (-s[k - 1] - (-m)) == -((s[k - 1] - m) * (s[k - 1] - m)))
            by (nonlinear_arith);
    }
}

/// A signal with positive variance correlates with its negation exactly
/// at `-SCALE`.
pub proof fn lemma_correlation_negated(s: Seq<int>)
    requires
        s.len() > 0,
        var_spec(s) > 0,
    ensures
        corr_spec(s, negated(s)) == -SCALE,
{
    let n: int = s.len() as int;
    let v: int = var_spec(s);
    let m: int = mean_spec(s);
    lemma_sum_negated(s);
    lemma_div_to_zero_neg(sum_of(s), n);
    assert(mean_spec(negated(s)) == -m);
    lemma_sq_dev_negated(s, m);
    assert(var_spec(negated(s)) == v);
    lemma_cross_negated(s, m, n);
    assert(s.take(n) =~= s);
    lemma_div_to_zero_neg(sq_dev_sum(s, m), n);
    assert(cov_spec(s, negated(s)) == -v);
    let sd: int = stddev_spec(s);
    assert(stddev_spec(negated(s)) == sd);
    lemma_sq_dev_nonneg(s, m);
    lemma_div_pos_is_pos(sq_dev_sum(s, m), n);
    lemma_sqrt_floor(v);
    assert(sd >= 1) by {
        if sd == 0 {
            assert((sd + 1) * (sd + 1) == 1) by (nonlinear_arith)
                requires
                    sd == 0,
            ;
            assert(v < 1);
        }
    }
    let den: int = sd * sd;
    assert(den >= 1 && den <= v) by (nonlinear_arith)
        requires
            sd >= 1,
            sd * sd <= v,
            den == sd * sd,
    ;
    assert(den * (SCALE as int) <= v * (SCALE as int)) by (nonlinear_arith)
        requires
            den <= v,
    ;
    lemma_div_multiples_vanish(SCALE as int, den);
    vstd::arithmetic::mul::lemma_mul_is_commutative(den, SCALE as int);
    lemma_div_is_ordered(den * (SCALE as int), v * (SCALE as int), den);
    assert(div_to_zero(v * (SCALE as int), den) >= SCALE);
    lemma_div_to_zero_neg(v * (SCALE as int), den);
    assert((-v) * (SCALE as int) == -(v * (SCALE as int))) by (nonlinear_arith);
    assert(clamped(div_to_zero((-v) * (SCALE as int), den), -(SCALE as int), SCALE as int)
        == -SCALE);
}

} // verus!
