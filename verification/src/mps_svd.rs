//! Singular value decompositions and their truncation.

use num_complex::Complex64;
use vstd::prelude::*;

use crate::complex::{
    add_complex, at_most_real, complex_add, complex_finite, complex_join, complex_l1, complex_mul,
    complex_of, complex_one, complex_zero, div_real, integer_complex, larger_real, less_real,
    mul_complex, mul_real, one, real_at_most, real_div, real_less, real_max, real_mul, real_sqrt,
    sqrt_real, tiny, tiny_real, zero,
};
use crate::gate_error::GateError;
use crate::mps_tensor::{is_entry, tabulate, Tensor};

verus! {

/// The factors of a matrix, row by row, with its singular values between them.
pub type Factors = (Option<Vec<Complex64>>, Vec<Complex64>, Option<Vec<Complex64>>);

/// The number of singular values of a matrix.
pub open spec fn rank_bound(rows: int, cols: int) -> int {
    if rows < cols {
        rows
    } else {
        cols
    }
}

/// Whether a decomposition of the matrix with these rows, with a tolerance and a limit on the
/// number of iterations, can come out as `r`: the left factor, the singular values and the right
/// factor, or nothing.
pub uninterp spec fn may_be_svd(
    rows: nat,
    cols: nat,
    data: Seq<Complex64>,
    tolerance: Complex64,
    limit: nat,
    r: Option<(Seq<Complex64>, Seq<Complex64>, Seq<Complex64>)>,
) -> bool;

/// Whether a number can be part of a matrix that is decomposed: the sum of the moduli of its
/// parts is finite.
pub open spec fn is_tame(value: Complex64) -> bool {
    complex_finite(complex_l1(value))
}

/// Whether a real number is no NaN.
pub open spec fn is_number(value: Complex64) -> bool {
    real_at_most(value, value)
}

/// Whether no real number is a NaN.
pub open spec fn all_numbers(s: Seq<Complex64>) -> bool {
    forall|i: int| 0 <= i < s.len() ==> is_number(#[trigger] s[i])
}

/// Whether real numbers are in descending order.
pub open spec fn is_descending(s: Seq<Complex64>) -> bool {
    forall|i: int, j: int| 0 <= i < j < s.len() ==> !real_less(#[trigger] s[i], #[trigger] s[j])
}

/// The factors, where there are any.
pub open spec fn factors_of(r: Option<Factors>) -> Option<
    (Seq<Complex64>, Seq<Complex64>, Seq<Complex64>),
> {
    match r {
        Some((Some(u), s, Some(v_t))) => Some((u@, s@, v_t@)),
        _ => None,
    }
}

/// Whether factors have a column and a row for each of at least one singular value.
pub open spec fn are_factors(
    rows: int,
    cols: int,
    u: Seq<Complex64>,
    s: Seq<Complex64>,
    v_t: Seq<Complex64>,
) -> bool {
    s.len() >= 1 && u.len() == rows * s.len() && v_t.len() == s.len() * cols
}

/// `Matrix::try_svd_unordered` of `nalgebra`, with both factors, on the matrix that
/// `DMatrix::from_row_slice` makes. It gives up when the limit on the number of iterations is
/// reached. Otherwise both factors are there, with a column of `u` and a row of `v_t` for each
/// singular value. The last digits depend on the platform, so that the matrix does not fix the
/// factors. Their order, whether they hold a NaN, and that their product is close to the matrix
/// is not stated.
#[verifier::external_body]
pub(crate) fn decompose(
    rows: usize,
    cols: usize,
    data: &[Complex64],
    tolerance: Complex64,
    limit: usize,
) -> (r: Option<Factors>)
    requires
        rows >= 1,
        cols >= 1,
        limit >= 1,
        data@.len() == rows * cols,
    ensures
        r matches Some((u, s, v_t)) ==> u is Some && v_t is Some && s@.len() == rank_bound(
            rows as int,
            cols as int,
        ) && are_factors(rows as int, cols as int, u->0@, s@, v_t->0@),
        may_be_svd(rows as nat, cols as nat, data@, tolerance, limit as nat, factors_of(r)),
{
    let matrix = nalgebra::DMatrix::from_row_slice(rows, cols, data);
    let svd = matrix.try_svd_unordered(true, true, tolerance.re, limit)?;
    let u = match svd.u {
        Some(u) => Some(u.transpose().as_slice().to_vec()),
        None => None,
    };
    let v_t = match svd.v_t {
        Some(v_t) => Some(v_t.transpose().as_slice().to_vec()),
        None => None,
    };
    Some((u, svd.singular_values.map(Complex64::from).as_slice().to_vec(), v_t))
}

/// Whether `order` lists each place below `count` once.
pub open spec fn is_order(order: Seq<int>, count: nat) -> bool {
    &&& order.len() == count
    &&& forall|i: int| 0 <= i < count ==> 0 <= #[trigger] order[i] < count
    &&& forall|i: int, j: int|
        0 <= i < j < count ==> #[trigger] order[i] != #[trigger] order[j]
}

/// Whether `ordered` are factors with their columns, singular values and rows in another order.
pub open spec fn is_reordered(
    rows: int,
    cols: int,
    factors: (Seq<Complex64>, Seq<Complex64>, Seq<Complex64>),
    order: Seq<int>,
    ordered: (Seq<Complex64>, Seq<Complex64>, Seq<Complex64>),
) -> bool {
    let count = factors.1.len() as int;
    &&& is_order(order, factors.1.len())
    &&& ordered.1.len() == count
    &&& are_factors(rows, cols, ordered.0, ordered.1, ordered.2)
    &&& forall|i: int|
        0 <= i < count ==> #[trigger] ordered.1[i] == complex_join(
            factors.1[order[i]],
            complex_zero(),
        )
    &&& forall|row: int, i: int|
        #![trigger ordered.0[row * count + i]]
        0 <= row < rows && 0 <= i < count ==> ordered.0[row * count + i] == factors.0[row * count
            + order[i]]
    &&& forall|i: int, col: int|
        #![trigger ordered.2[i * cols + col]]
        0 <= i < count && 0 <= col < cols ==> ordered.2[i * cols + col] == factors.2[order[i]
            * cols + col]
}

/// Whether `ordered` are factors in the order of descending singular values.
pub open spec fn are_ordered(
    rows: int,
    cols: int,
    factors: (Seq<Complex64>, Seq<Complex64>, Seq<Complex64>),
    ordered: (Seq<Complex64>, Seq<Complex64>, Seq<Complex64>),
) -> bool {
    is_descending(ordered.1) && exists|order: Seq<int>| #[trigger]
        is_reordered(rows, cols, factors, order, ordered)
}

/// `SVD::sort_by_singular_values` of `nalgebra`, on factors whose singular values are the real
/// parts of `s`. The singular values come out in descending order, and the columns of `u` and
/// the rows of `v_t` along with them; which of two equal singular values comes first is left
/// open.
#[verifier::external_body]
pub(crate) fn sort_factors(
    rows: usize,
    cols: usize,
    u: &[Complex64],
    s: &[Complex64],
    v_t: &[Complex64],
) -> (r: Factors)
    requires
        rows >= 1,
        cols >= 1,
        are_factors(rows as int, cols as int, u@, s@, v_t@),
        all_numbers(s@),
    ensures
        r.0 is Some,
        r.2 is Some,
        are_ordered(
            rows as int,
            cols as int,
            (u@, s@, v_t@),
            (r.0->0@, r.1@, r.2->0@),
        ),
{
    let mut svd = nalgebra::SVD {
        u: Some(nalgebra::DMatrix::from_row_slice(rows, s.len(), u)),
        v_t: Some(nalgebra::DMatrix::from_row_slice(s.len(), cols, v_t)),
        singular_values: nalgebra::DVector::from_row_slice(s).map(|value| value.re),
    };
    svd.sort_by_singular_values();
    let u = match svd.u {
        Some(u) => Some(u.transpose().as_slice().to_vec()),
        None => None,
    };
    let v_t = match svd.v_t {
        Some(v_t) => Some(v_t.transpose().as_slice().to_vec()),
        None => None,
    };
    (u, svd.singular_values.map(Complex64::from).as_slice().to_vec(), v_t)
}

/// Tests whether no real number is a NaN.
fn test_numbers(s: &Vec<Complex64>) -> (r: bool)
    ensures
        r == all_numbers(s@),
{
    let mut i: usize = 0;
    while i < s.len()
        invariant
            i <= s@.len(),
            forall|j: int| 0 <= j < i ==> is_number(#[trigger] s@[j]),
        decreases s@.len() - i,
    {
        if !at_most_real(s[i], s[i]) {
            assert(!is_number(s@[i as int]));
            return false;
        }
        i = i + 1;
    }
    true
}

/// Whether `e` is what is wrong with the outcome of a decomposition: there is none, a factor is
/// missing, or a singular value is a NaN.
pub open spec fn is_factor_error(factors: Option<Factors>, e: GateError) -> bool {
    match factors {
        None => e is NotFinite,
        Some((None, _, _)) => e is NoLeftFactor,
        Some((Some(_), _, None)) => e is NoRightFactor,
        Some((Some(_), s, Some(_))) => !all_numbers(s@) && e is NotFinite,
    }
}

/// Puts the outcome of a decomposition in the order of descending singular values.
pub fn order_factors(rows: usize, cols: usize, factors: Option<Factors>) -> (r: Result<
    (Vec<Complex64>, Vec<Complex64>, Vec<Complex64>),
    GateError,
>)
    requires
        rows >= 1,
        cols >= 1,
        factors matches Some((Some(u), s, Some(v_t))) ==> are_factors(
            rows as int,
            cols as int,
            u@,
            s@,
            v_t@,
        ),
    ensures
        match r {
            Ok((u, s, v_t)) => match factors_of(factors) {
                Some(found) => all_numbers(found.1) && are_ordered(
                    rows as int,
                    cols as int,
                    found,
                    (u@, s@, v_t@),
                ),
                None => false,
            },
            Err(e) => is_factor_error(factors, e),
        },
{
    match factors {
        None => Err(GateError::NotFinite),
        Some((None, _, _)) => Err(GateError::NoLeftFactor),
        Some((Some(_), _, None)) => Err(GateError::NoRightFactor),
        Some((Some(u), s, Some(v_t))) => {
            if !test_numbers(&s) {
                return Err(GateError::NotFinite);
            }
            let (ordered_u, ordered_s, ordered_v) = sort_factors(
                rows,
                cols,
                u.as_slice(),
                s.as_slice(),
                v_t.as_slice(),
            );
            Ok((ordered_u.unwrap(), ordered_s, ordered_v.unwrap()))
        },
    }
}

/// The tolerance of a decomposition: five times two to the power of -52.
pub open spec fn svd_tolerance() -> Complex64 {
    real_div(real_div(complex_of(5, 0), complex_of(0x400_0000, 0)), complex_of(0x400_0000, 0))
}

/// The tolerance of a decomposition.
pub(crate) fn tolerance_of_svd() -> (r: Complex64)
    ensures
        r == svd_tolerance(),
{
    let step: Complex64 = integer_complex(0x400_0000, 0);
    div_real(div_real(integer_complex(5, 0), step), step)
}

/// The number of iterations after which a decomposition with `count` singular values gives up.
/// A few of them for each singular value are the rule.
pub open spec fn svd_limit(count: int) -> int {
    if count * 1000 <= usize::MAX {
        count * 1000
    } else {
        usize::MAX as int
    }
}

/// The number of iterations after which a decomposition gives up.
pub(crate) fn limit_of_svd(count: usize) -> (r: usize)
    ensures
        r == svd_limit(count as int),
{
    if count <= usize::MAX / 1000 {
        count * 1000
    } else {
        usize::MAX
    }
}

/// How many of the first `count` singular values are above a threshold.
pub open spec fn above(s: Seq<Complex64>, threshold: Complex64, count: int) -> nat
    decreases count,
{
    if count <= 0 {
        0
    } else {
        above(s, threshold, count - 1) + if real_less(threshold, s[count - 1]) {
            1nat
        } else {
            0nat
        }
    }
}

/// How many singular values are kept: those above the threshold, but at least one and no more
/// than the largest bond.
pub open spec fn kept_count(
    s: Seq<Complex64>,
    threshold: Complex64,
    max_bond: Option<usize>,
) -> nat {
    let wanted = above(s, threshold, s.len() as int);
    let some = if wanted >= 1 {
        wanted
    } else {
        1
    };
    match max_bond {
        Some(limit) => {
            let cap = if limit >= 1 {
                limit as nat
            } else {
                1
            };
            if some < cap {
                some
            } else {
                cap
            }
        },
        None => some,
    }
}

proof fn lemma_above(s: Seq<Complex64>, threshold: Complex64, count: int)
    requires
        0 <= count,
    ensures
        above(s, threshold, count) <= count,
    decreases count,
{
    if count > 0 {
        lemma_above(s, threshold, count - 1);
    }
}

/// The number of kept singular values is at least one, at most the number of singular values
/// and at most the largest bond, which counts as one where it is zero.
pub proof fn law_kept_count_is_bounded(
    s: Seq<Complex64>,
    threshold: Complex64,
    max_bond: Option<usize>,
)
    requires
        s.len() >= 1,
    ensures
        1 <= kept_count(s, threshold, max_bond) <= s.len(),
        max_bond matches Some(limit) ==> kept_count(s, threshold, max_bond) <= limit || (kept_count(
            s,
            threshold,
            max_bond,
        ) == 1 && limit == 0),
{
    lemma_above(s, threshold, s.len() as int);
}

/// The sum of the squares of the singular values from place `from` up to `to`, added up in
/// order.
pub open spec fn square_sum(s: Seq<Complex64>, from: int, to: int) -> Complex64
    decreases to - from,
{
    if to <= from {
        complex_zero()
    } else {
        complex_add(square_sum(s, from, to - 1), real_mul(s[to - 1], s[to - 1]))
    }
}

/// The factor that makes up for the discarded singular values: the norm of all of them over
/// that of the kept ones.
pub open spec fn truncation_scale(s: Seq<Complex64>, keep: int) -> Complex64 {
    if real_less(complex_zero(), square_sum(s, keep, s.len() as int)) {
        real_div(
            real_sqrt(square_sum(s, 0, s.len() as int)),
            real_max(real_sqrt(square_sum(s, 0, keep)), tiny(15)),
        )
    } else {
        complex_one()
    }
}

/// Counts the singular values that are kept.
pub fn kept(s: &Vec<Complex64>, threshold: Complex64, max_bond: Option<usize>) -> (keep: usize)
    requires
        s@.len() >= 1,
    ensures
        keep == kept_count(s@, threshold, max_bond),
        1 <= keep <= s@.len(),
{
    let mut count: usize = 0;
    let mut i: usize = 0;
    while i < s.len()
        invariant
            i <= s@.len(),
            count <= i,
            count == above(s@, threshold, i as int),
        decreases s@.len() - i,
    {
        if less_real(threshold, s[i]) {
            count = count + 1;
        }
        i = i + 1;
    }
    let some: usize = if count >= 1 {
        count
    } else {
        1
    };
    match max_bond {
        Some(limit) => {
            let cap: usize = if limit >= 1 {
                limit
            } else {
                1
            };
            if some < cap {
                some
            } else {
                cap
            }
        },
        None => some,
    }
}

/// Adds up the squares of some singular values.
fn sum_squares(s: &Vec<Complex64>, from: usize, to: usize) -> (sum: Complex64)
    requires
        from <= to <= s@.len(),
    ensures
        sum == square_sum(s@, from as int, to as int),
{
    let mut sum: Complex64 = zero();
    let mut i: usize = from;
    while i < to
        invariant
            from <= i <= to,
            to <= s@.len(),
            sum == square_sum(s@, from as int, i as int),
        decreases to - i,
    {
        sum = add_complex(sum, mul_real(s[i], s[i]));
        i = i + 1;
    }
    sum
}

/// The factor that makes up for the discarded singular values.
pub fn scale_for(s: &Vec<Complex64>, keep: usize) -> (scale: Complex64)
    requires
        keep <= s@.len(),
    ensures
        scale == truncation_scale(s@, keep as int),
{
    let kept_norm: Complex64 = larger_real(sqrt_real(sum_squares(s, 0, keep)), tiny_real(15));
    let total_norm: Complex64 = sqrt_real(sum_squares(s, 0, s.len()));
    let discarded: Complex64 = sum_squares(s, keep, s.len());
    if less_real(zero(), discarded) {
        div_real(total_norm, kept_norm)
    } else {
        one()
    }
}

/// Whether `left` and `right` are the first columns of `u`, and the first rows of `v` times the
/// scaled singular values.
pub open spec fn is_truncation(
    u: Tensor,
    s: Seq<Complex64>,
    v: Tensor,
    threshold: Complex64,
    max_bond: Option<usize>,
    left: Tensor,
    right: Tensor,
) -> bool {
    let keep = kept_count(s, threshold, max_bond);
    &&& left.wf() && right.wf()
    &&& left.left == u.left && left.right == keep
    &&& right.left == keep && right.right == v.right
    &&& forall|l: usize, state: usize, b: usize|
        #![trigger left.at(l as int, state as int, b as int)]
        is_entry(left.left as int, left.right as int, l as int, state as int, b as int)
            ==> left.at(l as int, state as int, b as int) == u.at(
            l as int,
            state as int,
            b as int,
        )
    &&& forall|b: usize, state: usize, r: usize|
        #![trigger right.at(b as int, state as int, r as int)]
        is_entry(right.left as int, right.right as int, b as int, state as int, r as int)
            ==> right.at(b as int, state as int, r as int) == complex_mul(
            real_mul(s[b as int], truncation_scale(s, keep as int)),
            v.at(b as int, state as int, r as int),
        )
}

/// Splits a pair of tensors by a decomposition, keeping the singular values that count.
pub fn truncate_factors(
    u: &Tensor,
    s: &Vec<Complex64>,
    v: &Tensor,
    threshold: Complex64,
    max_bond: Option<usize>,
) -> (r: (Tensor, Tensor))
    requires
        u.wf(),
        v.wf(),
        s@.len() >= 1,
        u.right == s@.len(),
        v.left == s@.len(),
    ensures
        is_truncation(*u, s@, *v, threshold, max_bond, r.0, r.1),
        r.0.right <= s@.len(),
{
    let keep: usize = kept(s, threshold, max_bond);
    let scale: Complex64 = scale_for(s, keep);
    assert(u.data.len() <= usize::MAX);
    assert(v.data.len() <= usize::MAX);
    proof {
        assert(u.left * 2 * keep <= u.left * 2 * u.right) by (nonlinear_arith)
            requires
                keep <= u.right,
                u.left >= 1,
        ;
        assert(keep * 2 * v.right <= v.left * 2 * v.right) by (nonlinear_arith)
            requires
                keep <= v.left,
                v.right >= 1,
        ;
    }
    let first = |l: usize, state: usize, b: usize| -> (value: Complex64)
        requires
            is_entry(u.left as int, keep as int, l as int, state as int, b as int),
        ensures
            value == u.at(l as int, state as int, b as int),
        { u.get(l, state, b) };
    let left: Tensor = tabulate(u.left, keep, first);
    let second = |b: usize, state: usize, r: usize| -> (value: Complex64)
        requires
            is_entry(keep as int, v.right as int, b as int, state as int, r as int),
        ensures
            value == complex_mul(
                real_mul(s@[b as int], scale),
                v.at(b as int, state as int, r as int),
            ),
        { mul_complex(mul_real(s[b], scale), v.get(b, state, r)) };
    let right: Tensor = tabulate(keep, v.right, second);
    (left, right)
}

} // verus!
