//! The recursive decomposer: matches a rescaled basis against a residual
//! segment, subtracts the matched contribution in place, and recurses on
//! the two halves of the segment.
//!
//! [`process`] owns one `(start, seg)` index range of the shared residual
//! buffer; the two recursive children own its two disjoint halves, so a
//! parent's correction is visible to its descendants and to nobody else.
//! When `seg` is odd the second child's segment is one sample longer than
//! the shared half-length basis; the per-sample update then pairs to the
//! shorter length, leaving that child's final sample unmatched, exactly
//! as [`crate::stats::cov_spec`] truncates.

use vstd::prelude::*;

verus! {

use crate::arith::{
    descents, div_to_zero, div_trunc, floor_log2, lemma_ceil_half, lemma_descents_log2,
    lemma_descents_monotone, lemma_descents_nonneg, lemma_descents_pow, lemma_div_to_zero_bound,
    lemma_mul_magnitude, lemma_two_to_32, max_i, min_i,
};
use crate::resample::{lemma_stretch_bounded, stretch, stretch_spec};
use crate::stats::{corr_spec, correlation};
use crate::{bounded, ints, LEN_LIMIT, SAMPLE_LIMIT, SCALE, WORK_LIMIT};

/// All-zero signal of length `n`.
pub open spec fn zero_sig(n: int) -> Seq<int> {
    Seq::new(n as nat, |i: int| 0int)
}

/// Every sample of `s` is zero.
pub open spec fn all_zero(s: Seq<int>) -> bool {
    forall|i: int| 0 <= i < s.len() ==> #[trigger] s[i] == 0
}

/// The matched contribution at position `j`: the basis sample weighted by
/// the correlation, descaled toward zero.
pub open spec fn matched_at(basis: Seq<int>, corr: int, j: int) -> int {
    div_to_zero(basis[j] * corr, SCALE as int)
}

/// The residual segment after one level's in-place subtraction: the
/// first `min(|err|, |basis|)` samples lose their matched contribution,
/// the rest stay.
pub open spec fn step_err(err: Seq<int>, basis: Seq<int>) -> Seq<int> {
    let m: int = min_i(err.len() as int, basis.len() as int);
    let corr: int = corr_spec(err, basis);
    Seq::new(
        err.len(),
        |i: int|
            if i < m {
                err[i] - matched_at(basis, corr, i)
            } else {
                err[i]
            },
    )
}

/// One level's own output: the matched contribution where the update
/// paired samples, zero beyond.
pub open spec fn step_out(err: Seq<int>, basis: Seq<int>) -> Seq<int> {
    let m: int = min_i(err.len() as int, basis.len() as int);
    let corr: int = corr_spec(err, basis);
    Seq::new(
        err.len(),
        |i: int|
            if i < m {
                matched_at(basis, corr, i)
            } else {
                0
            },
    )
}

/// One decomposition node on a residual segment `err` with basis `basis`
/// at depth `level`; yields the rewritten residual segment and the
/// accumulated output.
///
/// At a live node the correlation-weighted basis is subtracted from the
/// residual over the first `min(|err|, |basis|)` samples and recorded in
/// the output; the basis is then rescaled to the floor half length and
/// the node recurses on the two halves of its segment, summing the
/// children's outputs into its own.
pub open spec fn process_spec(err: Seq<int>, basis: Seq<int>, level: int) -> (Seq<int>, Seq<int>)
    decreases level,
{
    let n: int = err.len() as int;
    if level <= 0 || n == 0 {
        (err, zero_sig(n))
    } else {
        let err1: Seq<int> = step_err(err, basis);
        let out1: Seq<int> = step_out(err, basis);
        let h: int = n / 2;
        if h > 0 {
            let hb: Seq<int> = stretch_spec(basis, h);
            let ra: (Seq<int>, Seq<int>) = process_spec(err1.take(h), hb, level - 1);
            let rb: (Seq<int>, Seq<int>) = process_spec(err1.skip(h), hb, level - 1);
            (
                ra.0 + rb.0,
                Seq::new(
                    err.len(),
                    |i: int|
                        if i < h {
                            out1[i] + ra.1[i]
                        } else {
                            out1[i] + rb.1[i - h]
                        },
                ),
            )
        } else {
            (err1, out1)
        }
    }
}

/// A decomposition node preserves the segment length, in both results.
pub proof fn lemma_process_spec_len(err: Seq<int>, basis: Seq<int>, level: int)
    ensures
        process_spec(err, basis, level).0.len() == err.len(),
        process_spec(err, basis, level).1.len() == err.len(),
    decreases level,
{
    let n: int = err.len() as int;
    if level <= 0 || n == 0 {
    } else {
        let h: int = n / 2;
        if h > 0 {
            let err1: Seq<int> = step_err(err, basis);
            let hb: Seq<int> = stretch_spec(basis, h);
            lemma_process_spec_len(err1.take(h), hb, level - 1);
            lemma_process_spec_len(err1.skip(h), hb, level - 1);
        }
    }
}

/// An all-zero residual is a fixed point: the decomposer leaves the
/// residual untouched and outputs zero, at every basis and level.
pub proof fn lemma_process_spec_zero(err: Seq<int>, basis: Seq<int>, level: int)
    requires
        all_zero(err),
    ensures
        process_spec(err, basis, level).0 == err,
        all_zero(process_spec(err, basis, level).1),
        process_spec(err, basis, level).1.len() == err.len(),
    decreases level,
{
    lemma_process_spec_len(err, basis, level);
    let n: int = err.len() as int;
    if level <= 0 || n == 0 {
        assert(process_spec(err, basis, level).0 =~= err);
    } else {
        let m: int = min_i(n, basis.len() as int);
        crate::stats::lemma_constant_stats(err, 0);
        assert(corr_spec(err, basis) == 0);
        let corr: int = corr_spec(err, basis);
        let err1: Seq<int> = step_err(err, basis);
        let out1: Seq<int> = step_out(err, basis);
        assert forall|i: int| 0 <= i < n implies #[trigger] err1[i] == err[i] && (0 <= i < n
            ==> out1[i] == 0) by {
            if i < m {
                assert(basis[i] * 0 == 0) by (nonlinear_arith);
                assert(matched_at(basis, corr, i) == div_to_zero(0, SCALE as int));
                vstd::arithmetic::div_mod::lemma_div_of0(SCALE as int);
            }
        }
        assert(err1 =~= err);
        let h: int = n / 2;
        if h > 0 {
            let hb: Seq<int> = stretch_spec(basis, h);
            assert(all_zero(err1.take(h)));
            assert(all_zero(err1.skip(h)));
            lemma_process_spec_zero(err1.take(h), hb, level - 1);
            lemma_process_spec_zero(err1.skip(h), hb, level - 1);
            let ra: (Seq<int>, Seq<int>) = process_spec(err1.take(h), hb, level - 1);
            let rb: (Seq<int>, Seq<int>) = process_spec(err1.skip(h), hb, level - 1);
            assert(ra.0 + rb.0 =~= err);
        } else {
            assert(process_spec(err, basis, level).0 =~= err);
        }
    }
}

/// Deepest chain of live recursion from `level` remaining levels on a
/// segment of `n` samples: a node is live while the level is positive
/// and the segment can still split.
pub open spec fn rec_depth(level: int, n: int) -> int
    decreases (if level > 0 {
        level
    } else {
        0
    }),
{
    if level <= 0 || n < 2 {
        0
    } else {
        1 + max_i(rec_depth(level - 1, n / 2), rec_depth(level - 1, n - n / 2))
    }
}

proof fn lemma_rec_depth_le_level(level: int, n: int)
    ensures
        rec_depth(level, n) <= max_i(level, 0),
    decreases (if level > 0 {
        level
    } else {
        0
    }),
{
    if level > 0 && n >= 2 {
        lemma_rec_depth_le_level(level - 1, n / 2);
        lemma_rec_depth_le_level(level - 1, n - n / 2);
    }
}

proof fn lemma_rec_depth_le_descents(level: int, n: int)
    ensures
        rec_depth(level, n) <= descents(n),
    decreases (if level > 0 {
        level
    } else {
        0
    }),
{
    lemma_descents_nonneg(n);
    if level > 0 && n >= 2 {
        lemma_ceil_half(n);
        lemma_rec_depth_le_descents(level - 1, n / 2);
        lemma_rec_depth_le_descents(level - 1, n - n / 2);
        lemma_descents_monotone(n / 2, n - n / 2);
    }
}

/// Decompose the residual range `[start, start + seg)` of `error` in
/// place against `basis`, recursing for at most `level` levels; returns
/// the accumulated output for that range.
///
/// The function owns exactly its range: everything outside it is
/// untouched.  Residual and output follow [`process_spec`] sample for
/// sample; the sample-magnitude bounds keep every intermediate value
/// well inside `i64`.
#[verifier::rlimit(100)]
pub fn process(
    error: &mut Vec<i64>,
    start: usize,
    seg: usize,
    basis: &Vec<i64>,
    level: i32,
) -> (out: Vec<i64>)
    requires
        start + seg <= old(error).len(),
        seg <= LEN_LIMIT,
        basis.len() <= LEN_LIMIT,
        seg > 0 ==> basis.len() > 0,
        bounded(ints(basis@), SAMPLE_LIMIT as int),
        forall|k: int|
            start <= k < start + seg ==> -(WORK_LIMIT - (descents(seg as int) + 1) * (
            SAMPLE_LIMIT as int)) <= #[trigger] old(error)@[k] <= WORK_LIMIT - (descents(
                seg as int,
            ) + 1) * (SAMPLE_LIMIT as int),
    ensures
        final(error)@.len() == old(error)@.len(),
        forall|k: int|
            0 <= k < final(error)@.len() && !(start <= k < start + seg) ==> final(error)@[k] == old(
                error,
            )@[k],
        out@.len() == seg,
        ints(final(error)@.subrange(start as int, (start + seg) as int)) == process_spec(
            ints(old(error)@.subrange(start as int, (start + seg) as int)),
            ints(basis@),
            level as int,
        ).0,
        ints(out@) == process_spec(
            ints(old(error)@.subrange(start as int, (start + seg) as int)),
            ints(basis@),
            level as int,
        ).1,
        forall|k: int|
            start <= k < start + seg ==> -WORK_LIMIT <= #[trigger] final(error)@[k] <= WORK_LIMIT,
        bounded(ints(out@), (descents(seg as int) + 1) * (SAMPLE_LIMIT as int)),
    decreases level,
{
    let ghost err0: Seq<int> = ints(old(error)@.subrange(start as int, (start + seg) as int));
    let ghost bs: Seq<int> = ints(basis@);
    proof {
        lemma_descents_nonneg(seg as int);
        lemma_two_to_32();
        lemma_descents_pow(32, seg as int);
    }
    let ghost dd: int = descents(seg as int);
    if level <= 0 || seg == 0 {
        let mut out: Vec<i64> = Vec::new();
        let mut i: usize = 0;
        while i < seg
            invariant
                i <= seg,
                out.len() == i,
                forall|k: int| 0 <= k < i ==> #[trigger] out@[k] == 0i64,
            decreases seg - i,
        {
            out.push(0);
            i += 1;
        }
        proof {
            assert(ints(out@) =~= zero_sig(seg as int));
            assert(ints(error@.subrange(start as int, (start + seg) as int)) =~= err0);
        }
        return out;
    }
    let m: usize = if basis.len() < seg {
        basis.len()
    } else {
        seg
    };
    let mut segv: Vec<i64> = Vec::new();
    let mut i: usize = 0;
    while i < seg
        invariant
            i <= seg,
            segv.len() == i,
            start + seg <= error.len(),
            error@ == old(error)@,
            forall|k: int| 0 <= k < i ==> #[trigger] segv@[k] == error@[start + k],
        decreases seg - i,
    {
        let x: i64 = error[start + i];
        segv.push(x);
        i += 1;
    }
    proof {
        assert(ints(segv@) =~= err0);
        assert(bounded(ints(segv@), WORK_LIMIT as int));
        assert(bounded(bs, WORK_LIMIT as int));
    }
    let corr: i64 = correlation(&segv, basis);
    let ghost corrs: int = corr as int;
    proof {
        assert(corrs == corr_spec(err0, bs));
    }
    let ghost err1: Seq<int> = step_err(err0, bs);
    let ghost out1: Seq<int> = step_out(err0, bs);
    let ghost ms: int = min_i(err0.len() as int, bs.len() as int);
    proof {
        assert(m as int == ms);
    }
    let mut out: Vec<i64> = Vec::new();
    let mut j: usize = 0;
    while j < seg
        invariant
            j <= seg,
            m as int == ms,
            ms == min_i(err0.len() as int, bs.len() as int),
            m <= seg,
            m <= basis.len(),
            seg <= LEN_LIMIT,
            basis@.len() <= LEN_LIMIT,
            bounded(bs, SAMPLE_LIMIT as int),
            bs == ints(basis@),
            -SCALE <= corr <= SCALE,
            corrs == corr as int,
            corrs == corr_spec(err0, bs),
            forall|k: int|
                start <= k < start + seg ==> -(WORK_LIMIT - (dd + 1) * (SAMPLE_LIMIT as int))
                    <= #[trigger] old(error)@[k] <= WORK_LIMIT - (dd + 1) * (SAMPLE_LIMIT as int),
            start + seg <= error.len(),
            error@.len() == old(error)@.len(),
            dd == descents(seg as int),
            0 <= dd <= 32,
            err0 == ints(old(error)@.subrange(start as int, (start + seg) as int)),
            err0.len() == seg,
            err1 == step_err(err0, bs),
            out1 == step_out(err0, bs),
            forall|k: int|
                0 <= k < error@.len() && !(start <= k < start + min_i(j as int, ms))
                    ==> error@[k] == old(error)@[k],
            forall|k: int|
                0 <= k < min_i(j as int, ms) ==> #[trigger] error@[start + k] as int == err1[k],
            out.len() == j,
            forall|k: int| 0 <= k < j ==> #[trigger] out@[k] as int == out1[k],
            forall|k: int| 0 <= k < j ==> -SAMPLE_LIMIT <= #[trigger] out@[k] <= SAMPLE_LIMIT,
            forall|k: int|
                start <= k < start + seg ==> -(WORK_LIMIT - dd * (SAMPLE_LIMIT as int))
                    <= #[trigger] error@[k] <= WORK_LIMIT - dd * (SAMPLE_LIMIT as int),
        decreases seg - j,
    {
        if j < m {
            proof {
                assert(-SAMPLE_LIMIT <= bs[j as int] <= SAMPLE_LIMIT);
                lemma_mul_magnitude(bs[j as int], corrs, SAMPLE_LIMIT as int, SCALE as int);
            }
            let c128: i128 = div_trunc((basis[j] as i128) * (corr as i128), SCALE as i128);
            proof {
                lemma_div_to_zero_bound(
                    bs[j as int] * corrs,
                    SCALE as int,
                    SAMPLE_LIMIT as int,
                );
                assert(c128 == matched_at(bs, corrs, j as int));
            }
            let c: i64 = c128 as i64;
            let ev: i64 = error[start + j];
            proof {
                assert(error@[(start + j) as int] == old(error)@[(start + j) as int]);
                assert(ev as int == err0[j as int]);
            }
            error[start + j] = ev - c;
            out.push(c);
            proof {
                assert(error@[(start + j) as int] as int == err1[j as int]);
                assert(out@[j as int] as int == out1[j as int]);
            }
        } else {
            out.push(0);
            proof {
                assert(out@[j as int] as int == out1[j as int]);
            }
        }
        j += 1;
    }
    proof {
        assert(ints(error@.subrange(start as int, (start + seg) as int)) =~= err1);
    }
    let h: usize = seg / 2;
    if h > 0 {
        proof {
            lemma_ceil_half(seg as int);
            assert(descents(seg as int) == 1 + descents(seg - (seg as int) / 2));
            lemma_descents_monotone(h as int, seg - h);
            lemma_descents_nonneg(h as int);
        }
        let hb: Vec<i64> = stretch(basis, h);
        let ghost hbs: Seq<int> = ints(hb@);
        proof {
            lemma_stretch_bounded(bs, h as int, SAMPLE_LIMIT as int);
            lemma_descents_pow(32, h as int);
            lemma_descents_pow(32, seg - h);
        }
        let ghost errmid: Seq<i64> = error@;
        let out_a: Vec<i64> = process(error, start, h, &hb, level - 1);
        let ghost pra: (Seq<int>, Seq<int>) = process_spec(
            err1.take(h as int),
            hbs,
            (level - 1) as int,
        );
        proof {
            assert(ints(errmid.subrange(start as int, (start + h) as int)) =~= err1.take(h as int));
            lemma_process_spec_len(err1.take(h as int), hbs, (level - 1) as int);
        }
        proof {
            assert forall|k: int| 0 <= k < seg implies -SAMPLE_LIMIT <= #[trigger] out1[k]
                <= SAMPLE_LIMIT by {
                assert(out@[k] as int == out1[k]);
                assert(-SAMPLE_LIMIT <= out@[k] <= SAMPLE_LIMIT);
            }
        }
        let mut t: usize = 0;
        while t < h
            invariant
                t <= h,
                h < seg,
                out.len() == seg,
                out_a.len() == h,
                0 <= dd <= 32,
                forall|k: int| 0 <= k < seg ==> -SAMPLE_LIMIT <= #[trigger] out1[k] <= SAMPLE_LIMIT,
                out1.len() == seg,
                pra.1.len() == h,
                ints(out_a@) == pra.1,
                bounded(ints(out_a@), (descents(h as int) + 1) * (SAMPLE_LIMIT as int)),
                descents(h as int) + 1 <= dd,
                forall|k: int| 0 <= k < t ==> #[trigger] out@[k] as int == out1[k] + pra.1[k],
                forall|k: int| t <= k < seg ==> #[trigger] out@[k] as int == out1[k],
                forall|k: int|
                    0 <= k < seg ==> -((dd + 1) * (SAMPLE_LIMIT as int)) <= #[trigger] out@[k]
                        <= (dd + 1) * (SAMPLE_LIMIT as int),
            decreases h - t,
        {
            proof {
                assert(ints(out_a@)[t as int] == out_a@[t as int] as int);
                assert(-((descents(h as int) + 1) * (SAMPLE_LIMIT as int)) <= ints(out_a@)[t as int]
                    <= (descents(h as int) + 1) * (SAMPLE_LIMIT as int));
            }
            let s: i64 = out[t] + out_a[t];
            out[t] = s;
            t += 1;
        }
        let ghost errmid2: Seq<i64> = error@;
        let out_b: Vec<i64> = process(error, start + h, seg - h, &hb, level - 1);
        let ghost prb: (Seq<int>, Seq<int>) = process_spec(
            err1.skip(h as int),
            hbs,
            (level - 1) as int,
        );
        proof {
            assert(ints(errmid2.subrange((start + h) as int, (start + seg) as int)) =~= err1.skip(
                h as int,
            ));
            lemma_process_spec_len(err1.skip(h as int), hbs, (level - 1) as int);
        }
        let mut t2: usize = 0;
        while t2 < seg - h
            invariant
                t2 <= seg - h,
                h < seg,
                out.len() == seg,
                out_b.len() == seg - h,
                0 <= dd <= 32,
                out1.len() == seg,
                pra.1.len() == h,
                prb.1.len() == seg - h,
                ints(out_b@) == prb.1,
                bounded(ints(out_b@), (descents(seg - h) + 1) * (SAMPLE_LIMIT as int)),
                descents(seg - h) + 1 == dd,
                forall|k: int| 0 <= k < seg ==> -SAMPLE_LIMIT <= #[trigger] out1[k] <= SAMPLE_LIMIT,
                forall|k: int| 0 <= k < h ==> #[trigger] out@[k] as int == out1[k] + pra.1[k],
                forall|k: int|
                    h <= k < h + t2 ==> #[trigger] out@[k] as int == out1[k] + prb.1[k - h],
                forall|k: int| h + t2 <= k < seg ==> #[trigger] out@[k] as int == out1[k],
                forall|k: int|
                    0 <= k < seg ==> -((dd + 1) * (SAMPLE_LIMIT as int)) <= #[trigger] out@[k]
                        <= (dd + 1) * (SAMPLE_LIMIT as int),
            decreases seg - h - t2,
        {
            proof {
                assert(ints(out_b@)[t2 as int] == out_b@[t2 as int] as int);
                assert(-((descents(seg - h) + 1) * (SAMPLE_LIMIT as int)) <= ints(out_b@)[t2 as int]
                    <= (descents(seg - h) + 1) * (SAMPLE_LIMIT as int));
            }
            let s: i64 = out[h + t2] + out_b[t2];
            out[h + t2] = s;
            t2 += 1;
        }
        proof {
            let pr: (Seq<int>, Seq<int>) = process_spec(err0, bs, level as int);
            lemma_process_spec_len(err1.take(h as int), hbs, (level - 1) as int);
            lemma_process_spec_len(err1.skip(h as int), hbs, (level - 1) as int);
            assert(pr.0 == pra.0 + prb.0);
            assert(pr.1 == Seq::new(
                err0.len(),
                |i: int|
                    if i < h {
                        out1[i] + pra.1[i]
                    } else {
                        out1[i] + prb.1[i - h]
                    },
            ));
            assert forall|k: int| 0 <= k < seg implies ints(
                error@.subrange(start as int, (start + seg) as int),
            )[k] == pr.0[k] by {
                if k < h {
                    assert(error@[start + k] == errmid2[start + k]);
                    assert(ints(errmid2.subrange(start as int, (start + h) as int))[k] == pra.0[k]);
                } else {
                    assert(ints(error@.subrange((start + h) as int, (start + seg) as int))[k - h]
                        == prb.0[k - h]);
                }
            }
            assert(ints(error@.subrange(start as int, (start + seg) as int)) =~= pr.0);
            assert(ints(out@) =~= pr.1);
        }
        out
    } else {
        proof {
            let pr: (Seq<int>, Seq<int>) = process_spec(err0, bs, level as int);
            assert(pr.0 == err1);
            assert(pr.1 == out1);
            assert(ints(out@) =~= out1);
        }
        out
    }
}

/// The recursion depth under a segment of `n` samples never exceeds the
/// requested level count, nor `floor(log2(n)) + 1`.
pub proof fn lemma_rec_depth_bound(level: int, n: int)
    requires
        n >= 1,
        level >= 0,
    ensures
        rec_depth(level, n) <= min_i(level, floor_log2(n) + 1),
{
    lemma_rec_depth_le_level(level, n);
    lemma_rec_depth_le_descents(level, n);
    lemma_descents_log2(n);
}

} // verus!
