//! Recursive correlation-matching decomposition of one audio signal against
//! another.
//!
//! A long *target* signal and a short *template* signal are combined by
//! recursively matching rescaled copies of the template against shrinking
//! halves of the target's residual error.  Samples are fixed-point values:
//! an `i64` holds a sample scaled by [`SCALE`], so the arithmetic of the
//! whole pipeline is exact integer arithmetic with documented rounding, and
//! every step carries a contract.
//!
//! The modules, leaves first: [`arith`] (truncating division and integer
//! square root), [`resample`] (stretching a signal to a new length),
//! [`stats`] (mean, population standard deviation, covariance,
//! correlation), [`decompose`] (the recursive matcher), and [`sndfile`]
//! (plain-value sound-file metadata).  The orchestrator [`audiotar`] lives
//! at the root.

pub mod arith;
pub mod decompose;
pub mod resample;
pub mod sndfile;
pub mod stats;

use vstd::prelude::*;

verus! {

use crate::decompose::process_spec;
use crate::resample::stretch_spec;

/// One sample unit: a sample with real value `x` is stored as `x * SCALE`,
/// rounded.  All correlation coefficients are scaled by `SCALE` too, so a
/// perfect correlation is exactly `SCALE`.
pub const SCALE: i64 = 65536;

/// Largest magnitude allowed for an input sample (target or template).
/// Audio samples decoded as floats lie within `[-1, 1]`, which scales to
/// `SCALE`; this limit leaves generous headroom above that.
pub const SAMPLE_LIMIT: i64 = 0x4000_0000;

/// Largest magnitude a residual sample can reach while the decomposer
/// works: the input bound plus one template-sized correction per
/// recursion level, with headroom.
pub const WORK_LIMIT: i64 = 0x2000_0000_0000;

/// Largest signal length the library accepts.
pub const LEN_LIMIT: u64 = 0x1_0000_0000;

/// The samples of `s` as unbounded integers.
pub open spec fn ints(s: Seq<i64>) -> Seq<int> {
    s.map_values(|x: i64| x as int)
}

/// Every sample of `s` has magnitude at most `m`.
pub open spec fn bounded(s: Seq<int>, m: int) -> bool {
    forall|i: int| 0 <= i < s.len() ==> -m <= #[trigger] s[i] <= m
}

/// An input the combiner rejects before any work is done: one of the two
/// signals is empty.
#[derive(Clone, Copy, Debug, PartialEq, Eq, Structural)]
pub enum InputError {
    EmptyTarget,
    EmptyTemplate,
}

/// The whole combination: the residual starts as the target, the template
/// is stretched to the target's length, and the decomposer runs on the
/// full range at depth `levels`; the output is what it accumulates.
pub open spec fn audiotar_spec(target: Seq<int>, template: Seq<int>, levels: int) -> Seq<int> {
    process_spec(target, stretch_spec(template, target.len() as int), levels).1
}

/// Combine the `bigdata` target with the `smalldata` template for at most
/// `levels` recursion levels.
///
/// An empty target or template is rejected.  On success the output has
/// exactly the target's length and is, sample for sample, the accumulated
/// matched contribution of [`audiotar_spec`].  The residual buffer is
/// created and discarded here.
pub fn audiotar(bigdata: &Vec<i64>, smalldata: &Vec<i64>, levels: i32) -> (r: Result<
    Vec<i64>,
    InputError,
>)
    requires
        bigdata.len() <= LEN_LIMIT,
        smalldata.len() <= LEN_LIMIT,
        bounded(ints(bigdata@), SAMPLE_LIMIT as int),
        bounded(ints(smalldata@), SAMPLE_LIMIT as int),
    ensures
        r is Ok <==> (bigdata@.len() > 0 && smalldata@.len() > 0),
        bigdata@.len() == 0 ==> r == Result::<Vec<i64>, InputError>::Err(InputError::EmptyTarget),
        bigdata@.len() > 0 && smalldata@.len() == 0 ==> r == Result::<Vec<i64>, InputError>::Err(
            InputError::EmptyTemplate,
        ),
        r matches Ok(out) ==> out@.len() == bigdata@.len() && ints(out@) == audiotar_spec(
            ints(bigdata@),
            ints(smalldata@),
            levels as int,
        ),
{
    if bigdata.len() == 0 {
        return Err(InputError::EmptyTarget);
    }
    if smalldata.len() == 0 {
        return Err(InputError::EmptyTemplate);
    }
    let n: usize = bigdata.len();
    let mut residual: Vec<i64> = Vec::new();
    let mut i: usize = 0;
    while i < n
        invariant
            i <= n,
            n == bigdata.len(),
            residual.len() == i,
            forall|k: int| 0 <= k < i ==> #[trigger] residual@[k] == bigdata@[k],
        decreases n - i,
    {
        let x: i64 = bigdata[i];
        residual.push(x);
        i += 1;
    }
    let basis: Vec<i64> = crate::resample::stretch(smalldata, n);
    proof {
        assert(residual@ =~= bigdata@);
        crate::resample::lemma_stretch_bounded(
            ints(smalldata@),
            n as int,
            SAMPLE_LIMIT as int,
        );
        crate::arith::lemma_two_to_32();
        crate::arith::lemma_descents_pow(32, n as int);
        crate::arith::lemma_descents_nonneg(n as int);
        assert forall|k: int|
            0 <= k < n implies -(WORK_LIMIT - (crate::arith::descents(n as int) + 1) * (
        SAMPLE_LIMIT as int)) <= #[trigger] residual@[k] <= WORK_LIMIT - (crate::arith::descents(
            n as int,
        ) + 1) * (SAMPLE_LIMIT as int) by {
            assert(ints(bigdata@)[k] == bigdata@[k] as int);
            assert(-SAMPLE_LIMIT <= ints(bigdata@)[k] <= SAMPLE_LIMIT);
        }
    }
    let ghost residual0: Seq<i64> = residual@;
    let out: Vec<i64> = crate::decompose::process(&mut residual, 0, n, &basis, levels);
    proof {
        assert(ints(residual0.subrange(0, n as int)) =~= ints(bigdata@));
    }
    Ok(out)
}

} // verus!
