//! Stretching a signal to a chosen length by positional lookup.
//!
//! For output index `i` of `L` the source position is `p = N * i / L`.
//! Two modes exist.  [`stretch`] interpolates between the floor sample and
//! itself, so it collapses to nearest-floor-sample lookup; this is the
//! default, and what the decomposer uses.  [`stretch_linear`] is true
//! linear interpolation between the floor sample and its successor
//! (clamped to the last index), for callers who want the interpolation
//! the floor mode only approximates.

use vstd::prelude::*;

verus! {

use crate::arith::{div_to_zero, lemma_div_to_zero_bound, lemma_div_to_zero_exact, lemma_mul_magnitude};
use crate::{bounded, ints, LEN_LIMIT};
use vstd::arithmetic::div_mod::{
    lemma_div_multiples_vanish, lemma_div_pos_is_pos, lemma_mod_division_less_than_divisor,
    lemma_multiply_divide_lt,
};

/// Floor-lookup stretch of `src` to length `len`: sample `i` is the
/// source sample at the floor of position `N * i / L`.
pub open spec fn stretch_spec(src: Seq<int>, len: int) -> Seq<int> {
    Seq::new(len as nat, |i: int| src[(src.len() * i) / len])
}

/// Corrected stretch: linear interpolation between the floor sample and
/// its successor (clamped to the last index), with the quotient rounded
/// toward zero.
pub open spec fn stretch_linear_spec(src: Seq<int>, len: int) -> Seq<int> {
    Seq::new(
        len as nat,
        |i: int|
            {
                let p: int = src.len() * i;
                let f: int = p / len;
                let r: int = p % len;
                let f2: int = if f + 1 < src.len() {
                    f + 1
                } else {
                    src.len() - 1
                };
                div_to_zero(src[f] * (len - r) + src[f2] * r, len)
            },
    )
}

/// The source position of output index `i` lies inside the source.
pub proof fn lemma_stretch_index(n: int, i: int, len: int)
    requires
        0 < n,
        0 <= i < len,
    ensures
        0 <= (n * i) / len < n,
        0 <= n * i,
{
    lemma_mul_magnitude(n, i, n, len - 1);
    assert(n * i < len * n) by (nonlinear_arith)
        requires
            0 < n && 0 <= i < len,
    ;
    lemma_div_pos_is_pos(n * i, len);
    lemma_multiply_divide_lt(n * i, len, n);
}

/// A stretch holds only source samples, so every sample bound carries over.
pub proof fn lemma_stretch_bounded(src: Seq<int>, len: int, m: int)
    requires
        0 <= len,
        src.len() > 0 || len == 0,
        bounded(src, m),
    ensures
        bounded(stretch_spec(src, len), m),
{
    assert forall|i: int| 0 <= i < stretch_spec(src, len).len() implies -m
        <= #[trigger] stretch_spec(src, len)[i] <= m by {
        assert(stretch_spec(src, len).len() == len as nat);
        assert(0 < len);
        lemma_stretch_index(src.len() as int, i, len);
        let k: int = (src.len() * i) / len;
        assert(-m <= src[k] <= m);
    }
}

/// Stretching a nonempty signal to its own length reproduces it exactly,
/// under the floor lookup: position `N * i / N` is exactly `i`.
pub proof fn lemma_stretch_identity(src: Seq<int>)
    ensures
        stretch_spec(src, src.len() as int) =~= src,
{
    let n: int = src.len() as int;
    assert forall|i: int| 0 <= i < n implies #[trigger] stretch_spec(src, n)[i] == src[i] by {
        lemma_div_multiples_vanish(i, n);
        assert(n * i == i * n) by (nonlinear_arith);
    }
}

/// The corrected interpolation also reproduces a signal stretched to its
/// own length: the position is integral, so the fractional weight is zero.
pub proof fn lemma_stretch_linear_identity(src: Seq<int>)
    ensures
        stretch_linear_spec(src, src.len() as int) =~= src,
{
    let n: int = src.len() as int;
    assert forall|i: int| 0 <= i < n implies #[trigger] stretch_linear_spec(src, n)[i]
        == src[i] by {
        lemma_div_multiples_vanish(i, n);
        assert(n * i == i * n) by (nonlinear_arith);
        assert(n * i == n * (n * i / n) + 0);
        vstd::arithmetic::div_mod::lemma_fundamental_div_mod_converse(n * i, n, i, 0);
        assert((n * i) % n == 0);
        let f2: int = if i + 1 < n {
            i + 1
        } else {
            n - 1
        };
        assert(src[i] * (n - 0) + src[f2] * 0 == src[i] * n) by (nonlinear_arith);
        lemma_div_to_zero_exact(src[i], n);
    }
}

/// Floor-lookup stretch of `data` to `length` samples.
pub fn stretch(data: &Vec<i64>, length: usize) -> (out: Vec<i64>)
    requires
        length > 0 ==> data.len() > 0,
        data.len() <= LEN_LIMIT,
        length <= LEN_LIMIT,
    ensures
        out.len() == length,
        ints(out@) == stretch_spec(ints(data@), length as int),
{
    let n: usize = data.len();
    let mut out: Vec<i64> = Vec::new();
    let mut i: usize = 0;
    while i < length
        invariant
            i <= length,
            out.len() == i,
            n == data.len(),
            length > 0 ==> n > 0,
            n <= LEN_LIMIT,
            length <= LEN_LIMIT,
            forall|j: int| 0 <= j < i ==> out@[j] == data@[(n * j) / (length as int)],
        decreases length - i,
    {
        proof {
            lemma_stretch_index(n as int, i as int, length as int);
            lemma_mul_magnitude(n as int, i as int, LEN_LIMIT as int, LEN_LIMIT as int - 1);
        }
        let idx: usize = (((n as u64) * (i as u64)) / (length as u64)) as usize;
        out.push(data[idx]);
        i += 1;
    }
    proof {
        let res: Seq<int> = stretch_spec(ints(data@), length as int);
        assert forall|j: int| 0 <= j < length implies ints(out@)[j] == res[j] by {
            lemma_stretch_index(n as int, j, length as int);
        }
        assert(ints(out@) =~= res);
    }
    out
}

/// Linear stretch of `data` to `length` samples: true linear
/// interpolation, kept beside the floor-lookup [`stretch`] so that
/// callers can choose either mode.
pub fn stretch_linear(data: &Vec<i64>, length: usize, limit: i64) -> (out: Vec<i64>)
    requires
        length > 0 ==> data.len() > 0,
        data.len() <= LEN_LIMIT,
        length <= LEN_LIMIT,
        limit >= 0,
        bounded(ints(data@), limit as int),
    ensures
        out.len() == length,
        ints(out@) == stretch_linear_spec(ints(data@), length as int),
        bounded(ints(out@), limit as int),
{
    let n: usize = data.len();
    let mut out: Vec<i64> = Vec::new();
    let mut i: usize = 0;
    while i < length
        invariant
            i <= length,
            out.len() == i,
            n == data.len(),
            length > 0 ==> n > 0,
            n <= LEN_LIMIT,
            length <= LEN_LIMIT,
            limit >= 0,
            bounded(ints(data@), limit as int),
            forall|j: int| 0 <= j < i ==> out@[j] as int == stretch_linear_spec(
                ints(data@),
                length as int,
            )[j],
            forall|j: int| 0 <= j < i ==> -limit <= #[trigger] out@[j] <= limit,
        decreases length - i,
    {
        proof {
            lemma_stretch_index(n as int, i as int, length as int);
            lemma_mul_magnitude(n as int, i as int, LEN_LIMIT as int, LEN_LIMIT as int - 1);
        }
        let p: u64 = (n as u64) * (i as u64);
        let f: usize = (p / (length as u64)) as usize;
        let r: u64 = p % (length as u64);
        proof {
            lemma_mod_division_less_than_divisor(p as int, length as int);
        }
        let f2: usize = if f + 1 < n {
            f + 1
        } else {
            n - 1
        };
        proof {
            assert(f < n);
            assert(f2 < n);
            assert(-limit <= ints(data@)[f as int] <= limit);
            assert(-limit <= ints(data@)[f2 as int] <= limit);
            lemma_mul_magnitude(data@[f as int] as int, length - r, limit as int, LEN_LIMIT as int);
            lemma_mul_magnitude(data@[f2 as int] as int, r as int, limit as int, LEN_LIMIT as int);
            lemma_mul_magnitude(
                limit as int,
                LEN_LIMIT as int,
                0x7FFF_FFFF_FFFF_FFFF,
                0x1_0000_0000,
            );
        }
        let lo: i128 = (data[f] as i128) * ((length as u64 - r) as i128);
        let hi: i128 = (data[f2] as i128) * (r as i128);
        proof {
            lemma_mul_magnitude(data@[f as int] as int, length - r, limit as int, length - r);
            lemma_mul_magnitude(data@[f2 as int] as int, r as int, limit as int, r as int);
            assert((limit as int) * (length - r) + (limit as int) * (r as int) == (limit as int)
                * (length as int)) by (nonlinear_arith);
        }
        let v: i128 = crate::arith::div_trunc(lo + hi, length as i128);
        proof {
            lemma_div_to_zero_bound((lo + hi) as int, length as int, limit as int);
        }
        out.push(v as i64);
        proof {
            let sl: Seq<int> = stretch_linear_spec(ints(data@), length as int);
            assert(out@[i as int] as int == sl[i as int]);
        }
        i += 1;
    }
    proof {
        assert(ints(out@) =~= stretch_linear_spec(ints(data@), length as int));
    }
    out
}

} // verus!
