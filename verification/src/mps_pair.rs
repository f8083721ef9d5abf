//! Gates on two neighbours of a matrix product state.
//!
//! The two tensors are merged, the matrix is applied to the pair, and the pair is split again:
//! directly where it is a product of two qubits, and by a singular value decomposition
//! otherwise.

use std::time::Instant;

use num_complex::Complex64;
use vstd::prelude::*;

use crate::clock::add_time;
use crate::complex::{
    add_complex, complex_add, complex_mul, complex_zero, finite_complex, l1_complex, mul_complex,
    zero,
};
use crate::gate_error::GateError;
use crate::mps_kernel::{
    apply_mps_2q_kernel, factor_product_state_2x2, kernel_amplitude, kernel_wf, splits_into,
    splits_not, Matrix4, MpsTwoQKernel, Vector4,
};
use crate::mps_svd::{
    all_numbers, are_ordered, decompose, factors_of, is_descending, is_tame, is_truncation,
    law_kept_count_is_bounded, limit_of_svd, may_be_svd, order_factors, rank_bound, svd_limit,
    svd_tolerance, tolerance_of_svd, truncate_factors, Factors,
};
use crate::mps_tensor::{is_entry, tabulate, Tensor};

verus! {

/// The sum over the first `count` values of the bond between two tensors, added up in order.
pub open spec fn pair_sum(
    left: Tensor,
    right: Tensor,
    l: int,
    s0: int,
    s1: int,
    r: int,
    count: int,
) -> Complex64
    decreases count,
{
    if count <= 0 {
        complex_zero()
    } else {
        complex_add(
            pair_sum(left, right, l, s0, s1, r, count - 1),
            complex_mul(left.at(l, s0, count - 1), right.at(count - 1, s1, r)),
        )
    }
}

/// The amplitude of a pair of tensors.
pub open spec fn pair_amplitude(
    left: Tensor,
    right: Tensor,
    l: int,
    s0: int,
    s1: int,
    r: int,
) -> Complex64 {
    pair_sum(left, right, l, s0, s1, r, left.right as int)
}

/// The four amplitudes of a pair of tensors.
pub open spec fn pair_input(left: Tensor, right: Tensor, l: int, r: int) -> Seq<Complex64> {
    seq![
        pair_amplitude(left, right, l, 0, 0, r),
        pair_amplitude(left, right, l, 0, 1, r),
        pair_amplitude(left, right, l, 1, 0, r),
        pair_amplitude(left, right, l, 1, 1, r),
    ]
}

/// The amplitude at `row` after a gate that is given by its matrix, added up from zero.
pub open spec fn matrix_amplitude(mat: Matrix4, input: Seq<Complex64>, row: int) -> Complex64 {
    complex_add(
        complex_add(
            complex_add(
                complex_add(complex_zero(), complex_mul(mat[row][0], input[0])),
                complex_mul(mat[row][1], input[1]),
            ),
            complex_mul(mat[row][2], input[2]),
        ),
        complex_mul(mat[row][3], input[3]),
    )
}

/// The amplitude at `row` after a gate: by its kernel, or by its matrix.
pub open spec fn gate_amplitude(
    mat: Matrix4,
    kernel: Option<MpsTwoQKernel>,
    input: Seq<Complex64>,
    row: int,
) -> Complex64 {
    match kernel {
        Some(k) => kernel_amplitude(k, mat, input, row),
        None => matrix_amplitude(mat, input, row),
    }
}

/// Whether two tensors share a bond.
pub open spec fn is_pair(left: Tensor, right: Tensor) -> bool {
    left.wf() && right.wf() && left.right == right.left
}

/// Whether `theta` is a pair of tensors after a gate. Its left bond combines that of the pair
/// with the first qubit.
pub open spec fn is_theta(
    left: Tensor,
    right: Tensor,
    mat: Matrix4,
    kernel: Option<MpsTwoQKernel>,
    theta: Tensor,
) -> bool {
    &&& theta.wf()
    &&& theta.left == left.left * 2
    &&& theta.right == right.right
    &&& forall|row: usize, s1: usize, r: usize|
        #![trigger theta.at(row as int, s1 as int, r as int)]
        is_entry(theta.left as int, theta.right as int, row as int, s1 as int, r as int)
            ==> theta.at(row as int, s1 as int, r as int) == gate_amplitude(
            mat,
            kernel,
            pair_input(left, right, row as int / 2, r as int),
            (row as int % 2) * 2 + s1,
        )
}

/// Whether `merged` holds the amplitudes of a pair of tensors.
spec fn is_merged(left: Tensor, right: Tensor, merged: Tensor) -> bool {
    &&& merged.wf()
    &&& merged.left == left.left * 2
    &&& merged.right == right.right
    &&& forall|row: usize, s1: usize, r: usize|
        #![trigger merged.at(row as int, s1 as int, r as int)]
        is_entry(merged.left as int, merged.right as int, row as int, s1 as int, r as int)
            ==> merged.at(row as int, s1 as int, r as int) == pair_amplitude(
            left,
            right,
            row as int / 2,
            row as int % 2,
            s1 as int,
            r as int,
        )
}

/// Adds up one amplitude of a pair of tensors.
fn pair_entry(left: &Tensor, right: &Tensor, l: usize, s0: usize, s1: usize, r: usize) -> (sum:
    Complex64)
    requires
        is_pair(*left, *right),
        l < left.left,
        s0 < 2,
        s1 < 2,
        r < right.right,
    ensures
        sum == pair_amplitude(*left, *right, l as int, s0 as int, s1 as int, r as int),
{
    let mut sum: Complex64 = zero();
    let mut bond: usize = 0;
    while bond < left.right
        invariant
            bond <= left.right,
            is_pair(*left, *right),
            l < left.left,
            s0 < 2,
            s1 < 2,
            r < right.right,
            sum == pair_sum(
                *left,
                *right,
                l as int,
                s0 as int,
                s1 as int,
                r as int,
                bond as int,
            ),
        decreases left.right - bond,
    {
        sum = add_complex(sum, mul_complex(left.get(l, s0, bond), right.get(bond, s1, r)));
        bond = bond + 1;
    }
    sum
}

/// Applies a gate to four amplitudes.
fn gate_on_four(mat: &Matrix4, kernel: Option<MpsTwoQKernel>, input: Vector4, row: usize) -> (r:
    Complex64)
    requires
        row < 4,
        kernel matches Some(k) ==> kernel_wf(k),
    ensures
        r == gate_amplitude(*mat, kernel, input@, row as int),
{
    match kernel {
        Some(k) => {
            let out: Vector4 = apply_mps_2q_kernel(k, mat, input);
            out[row]
        },
        None => {
            let first: Complex64 = add_complex(zero(), mul_complex(mat[row][0], input[0]));
            let second: Complex64 = add_complex(first, mul_complex(mat[row][1], input[1]));
            let third: Complex64 = add_complex(second, mul_complex(mat[row][2], input[2]));
            add_complex(third, mul_complex(mat[row][3], input[3]))
        },
    }
}

/// The four amplitudes of a merged pair.
spec fn four_of(merged: &Tensor, l: int, r: int) -> Seq<Complex64> {
    seq![
        merged.at(2 * l, 0, r),
        merged.at(2 * l, 1, r),
        merged.at(2 * l + 1, 0, r),
        merged.at(2 * l + 1, 1, r),
    ]
}

/// Applies a gate to the amplitudes of a merged pair, and gives one of the four results.
fn theta_entry(
    merged: &Tensor,
    mat: &Matrix4,
    kernel: Option<MpsTwoQKernel>,
    row: usize,
    s1: usize,
    r: usize,
) -> (value: Complex64)
    requires
        merged.wf(),
        merged.left % 2 == 0,
        is_entry(merged.left as int, merged.right as int, row as int, s1 as int, r as int),
        kernel matches Some(k) ==> kernel_wf(k),
    ensures
        value == gate_amplitude(
            *mat,
            kernel,
            four_of(merged, row as int / 2, r as int),
            (row as int % 2) * 2 + s1,
        ),
{
    let base: usize = 2 * (row / 2);
    let input: Vector4 = [
        merged.get(base, 0, r),
        merged.get(base, 1, r),
        merged.get(base + 1, 0, r),
        merged.get(base + 1, 1, r),
    ];
    assert(input@ =~= four_of(merged, row as int / 2, r as int));
    gate_on_four(mat, kernel, input, (row % 2) * 2 + s1)
}

/// Applies a gate to a pair of tensors. The time that a decomposition takes is added to
/// `svd_nanos`.
pub fn pair_theta(left: &Tensor, right: &Tensor, mat: &Matrix4, kernel: Option<MpsTwoQKernel>) -> (r:
    Option<Tensor>)
    requires
        is_pair(*left, *right),
        kernel matches Some(k) ==> kernel_wf(k),
    ensures
        match r {
            Some(theta) => left.left * 2 * 2 * right.right <= usize::MAX && is_theta(
                *left,
                *right,
                *mat,
                kernel,
                theta,
            ),
            None => left.left * 2 * 2 * right.right > usize::MAX,
        },
{
    let size: Option<usize> = left.left.checked_mul(4);
    let size: Option<usize> = match size {
        Some(some) => some.checked_mul(right.right),
        None => None,
    };
    proof {
        assert(left.left * 2 * 2 * right.right == (left.left * 4) * right.right);
        assert(left.left * 4 <= (left.left * 4) * right.right) by (nonlinear_arith)
            requires
                right.right >= 1,
        ;
    }
    if size.is_none() {
        return None;
    }
    let rows: usize = left.left * 2;
    assert(rows * 2 * right.right == left.left * 2 * 2 * right.right);
    let entry = |row: usize, s1: usize, r: usize| -> (value: Complex64)
        requires
            is_entry(rows as int, right.right as int, row as int, s1 as int, r as int),
        ensures
            value == pair_amplitude(
                *left,
                *right,
                row as int / 2,
                row as int % 2,
                s1 as int,
                r as int,
            ),
        { pair_entry(left, right, row / 2, row % 2, s1, r) };
    let merged: Tensor = tabulate(rows, right.right, entry);
    assert(is_merged(*left, *right, merged));
    let applied = |row: usize, s1: usize, r: usize| -> (value: Complex64)
        requires
            is_entry(rows as int, right.right as int, row as int, s1 as int, r as int),
        ensures
            value == gate_amplitude(
                *mat,
                kernel,
                four_of(&merged, row as int / 2, r as int),
                (row as int % 2) * 2 + s1,
            ),
        { theta_entry(&merged, mat, kernel, row, s1, r) };
    let theta: Tensor = tabulate(rows, right.right, applied);
    proof {
        assert forall|row: usize, s1: usize, r: usize|
            #![trigger theta.at(row as int, s1 as int, r as int)]
            is_entry(
                theta.left as int,
                theta.right as int,
                row as int,
                s1 as int,
                r as int,
            ) implies theta.at(row as int, s1 as int, r as int) == gate_amplitude(
            *mat,
            kernel,
            pair_input(*left, *right, row as int / 2, r as int),
            (row as int % 2) * 2 + s1,
        ) by {
            let base = (2 * (row as int / 2)) as usize;
            let next = (2 * (row as int / 2) + 1) as usize;
            assert(merged.at(base as int, 0usize as int, r as int) == pair_amplitude(
                *left,
                *right,
                row as int / 2,
                0,
                0,
                r as int,
            ));
            assert(merged.at(base as int, 1usize as int, r as int) == pair_amplitude(
                *left,
                *right,
                row as int / 2,
                0,
                1,
                r as int,
            ));
            assert(merged.at(next as int, 0usize as int, r as int) == pair_amplitude(
                *left,
                *right,
                row as int / 2,
                1,
                0,
                r as int,
            ));
            assert(merged.at(next as int, 1usize as int, r as int) == pair_amplitude(
                *left,
                *right,
                row as int / 2,
                1,
                1,
                r as int,
            ));
            assert(four_of(&merged, row as int / 2, r as int) =~= pair_input(
                *left,
                *right,
                row as int / 2,
                r as int,
            ));
        }
    }
    Some(theta)
}

/// Whether every number of a tensor can be part of a matrix that is decomposed.
pub open spec fn all_tame(theta: Tensor) -> bool {
    forall|i: int| 0 <= i < theta.data@.len() ==> is_tame(#[trigger] theta.data@[i])
}

/// Tests whether every number of a tensor can be part of a matrix that is decomposed.
fn test_tame(theta: &Tensor) -> (r: bool)
    ensures
        r == all_tame(*theta),
{
    let mut i: usize = 0;
    while i < theta.data.len()
        invariant
            i <= theta.data@.len(),
            forall|j: int| 0 <= j < i ==> is_tame(#[trigger] theta.data@[j]),
        decreases theta.data@.len() - i,
    {
        let value: Complex64 = theta.data[i];
        if !finite_complex(l1_complex(value)) {
            assert(!is_tame(theta.data@[i as int]));
            return false;
        }
        i = i + 1;
    }
    true
}

/// Whether a decomposition of a pair can come out as `r`.
pub open spec fn pair_may_give(
    theta: Tensor,
    r: Option<(Seq<Complex64>, Seq<Complex64>, Seq<Complex64>)>,
) -> bool {
    may_be_svd(
        theta.left as nat,
        (2 * theta.right) as nat,
        theta.data@,
        svd_tolerance(),
        svd_limit(rank_bound(theta.left as int, 2 * theta.right)) as nat,
        r,
    )
}

/// Whether a decomposition of a pair can come out without factors, or with a singular value
/// that is a NaN.
pub open spec fn may_fail(theta: Tensor) -> bool {
    ||| pair_may_give(theta, None)
    ||| exists|found: (Seq<Complex64>, Seq<Complex64>, Seq<Complex64>)| #[trigger]
        pair_may_give(theta, Some(found)) && !all_numbers(found.1)
}

/// Whether `u`, `s` and `v` can be the decomposition of a pair, in the order of descending
/// singular values: the first qubit goes with the left factor, the second with the right one.
pub open spec fn is_svd_of(theta: Tensor, u: Tensor, s: Seq<Complex64>, v: Tensor) -> bool {
    &&& u.wf() && v.wf()
    &&& u.left * 2 == theta.left && v.right == theta.right
    &&& u.right == s.len() && v.left == s.len()
    &&& s.len() == rank_bound(theta.left as int, 2 * theta.right)
    &&& is_descending(s)
    &&& exists|found: (Seq<Complex64>, Seq<Complex64>, Seq<Complex64>)| #[trigger]
        pair_may_give(theta, Some(found)) && all_numbers(found.1) && are_ordered(
            theta.left as int,
            2 * theta.right,
            found,
            (u.data@, s, v.data@),
        )
}

/// Whether a pair can be split into `left` and `right` by a decomposition.
pub open spec fn decomposes_into(
    theta: Tensor,
    threshold: Complex64,
    max_bond: Option<usize>,
    left: Tensor,
    right: Tensor,
) -> bool {
    exists|u: Tensor, s: Seq<Complex64>, v: Tensor| #[trigger]
        is_svd_of(theta, u, s, v) && is_truncation(u, s, v, threshold, max_bond, left, right)
}

/// Whether a tensor without bonds holds two amplitudes.
pub open spec fn is_single(t: Tensor, values: Seq<Complex64>) -> bool {
    t.left == 1 && t.right == 1 && t.data@ == values
}

/// Whether four amplitudes can be split into the tensors of two qubits.
pub open spec fn splits_into_tensors(
    output: Seq<Complex64>,
    left: Tensor,
    right: Tensor,
) -> bool {
    exists|a: Seq<Complex64>, b: Seq<Complex64>| #[trigger]
        splits_into(output, a, b) && is_single(left, a) && is_single(right, b)
}

/// The tensors of a pair, and whether they were split without a decomposition.
pub type SplitPair = (Tensor, Tensor, bool);

/// Whether a pair can be finished with `r`. Two qubits without other bonds are split directly
/// where that is allowed and they are judged to be a product; every other pair is decomposed,
/// which fails where the pair holds too large a number, and can fail where the decomposition
/// comes out without factors or with a NaN.
pub open spec fn finishes(
    theta: Tensor,
    threshold: Complex64,
    max_bond: Option<usize>,
    allow_split: bool,
    r: Result<SplitPair, GateError>,
) -> bool {
    let alone = allow_split && theta.left == 2 && theta.right == 1;
    match r {
        Ok((left, right, split)) => if split {
            alone && splits_into_tensors(theta.data@, left, right)
        } else {
            (alone ==> splits_not(theta.data@)) && all_tame(theta) && decomposes_into(
                theta,
                threshold,
                max_bond,
                left,
                right,
            )
        },
        Err(e) => (alone ==> splits_not(theta.data@)) && (!all_tame(theta) || may_fail(theta))
            && e is NotFinite,
    }
}

/// Whether two tensors can take the place of a pair with the outer bonds `l` and `r`.
pub open spec fn is_replacement(
    l: usize,
    r: usize,
    max_bond: Option<usize>,
    left: Tensor,
    right: Tensor,
) -> bool {
    &&& is_pair(left, right)
    &&& left.left == l && right.right == r
    &&& is_bond(left.right, max_bond)
    &&& left.right <= 2 * l && left.right <= 2 * r
}

/// Whether a bond has a dimension that is allowed: at least one, no more than the limit, and
/// one whose square fits.
pub open spec fn is_bond(dim: usize, max_bond: Option<usize>) -> bool {
    &&& dim >= 1
    &&& dim * dim <= usize::MAX
    &&& max_bond matches Some(limit) ==> dim <= limit || dim == 1
}

/// The tensors of two qubits without bonds.
fn single_tensors(left: [Complex64; 2], right: [Complex64; 2]) -> (r: (Tensor, Tensor))
    ensures
        is_single(r.0, left@),
        is_single(r.1, right@),
        r.0.wf(),
        r.1.wf(),
{
    let mut a: Vec<Complex64> = Vec::new();
    a.push(left[0]);
    a.push(left[1]);
    let mut b: Vec<Complex64> = Vec::new();
    b.push(right[0]);
    b.push(right[1]);
    assert(a@ =~= left@);
    assert(b@ =~= right@);
    assert(1usize * 2 * 1usize == 2) by (nonlinear_arith);
    (Tensor { left: 1, right: 1, data: a }, Tensor { left: 1, right: 1, data: b })
}

/// Splits four amplitudes into the tensors of two qubits, if they are a product.
pub fn try_rank1_factorization(output: Vector4) -> (r: Option<(Tensor, Tensor)>)
    ensures
        match r {
            Some((left, right)) => splits_into_tensors(output@, left, right) && is_replacement(
                1,
                1,
                None,
                left,
                right,
            ) && left.right == 1,
            None => splits_not(output@),
        },
{
    match factor_product_state_2x2(output) {
        Some((a, b)) => {
            assert(splits_into(output@, a@, b@));
            Some(single_tensors(a, b))
        },
        None => None,
    }
}

proof fn lemma_bond_fits(l: int, r: int, keep: int)
    requires
        1 <= keep <= rank_bound(2 * l, 2 * r),
        l * 2 * 2 * r <= usize::MAX,
        l >= 1,
        r >= 1,
    ensures
        keep * keep <= usize::MAX,
{
    assert(keep * keep <= (2 * l) * (2 * r)) by (nonlinear_arith)
        requires
            1 <= keep <= 2 * l,
            keep <= 2 * r,
    ;
    assert((2 * l) * (2 * r) == l * 2 * 2 * r) by (nonlinear_arith);
}

/// Splits a pair after a gate.
pub fn finish_adjacent_2q(
    theta: &Tensor,
    threshold: Complex64,
    max_bond: Option<usize>,
    allow_split: bool,
    svd_nanos: &mut u64,
) -> (r: Result<SplitPair, GateError>)
    requires
        theta.wf(),
        theta.left % 2 == 0,
    ensures
        *final(svd_nanos) >= *old(svd_nanos),
        finishes(*theta, threshold, max_bond, allow_split, r),
        r matches Ok((left, right, _)) ==> is_replacement(
            theta.left / 2,
            theta.right,
            max_bond,
            left,
            right,
        ),
{
    if allow_split && theta.left == 2 && theta.right == 1 {
        assert(theta.left * 2 * theta.right == 4) by (nonlinear_arith)
            requires
                theta.left == 2,
                theta.right == 1,
        ;
        let output: Vector4 = [theta.data[0], theta.data[1], theta.data[2], theta.data[3]];
        assert(output@ =~= theta.data@);
        match try_rank1_factorization(output) {
            Some((left, right)) => {
                return Ok((left, right, true));
            },
            None => {},
        }
    }
    if !test_tame(theta) {
        return Err(GateError::NotFinite);
    }
    assert(theta.data.len() <= usize::MAX);
    let ghost l = theta.left as int / 2;
    let ghost size = theta.left * 2 * theta.right;
    proof {
        assert(theta.left * (2 * theta.right) == size) by (nonlinear_arith)
            requires
                size == theta.left * 2 * theta.right,
        ;
        assert(2 * theta.right <= size) by (nonlinear_arith)
            requires
                size == theta.left * 2 * theta.right,
                theta.left >= 1,
                theta.right >= 1,
        ;
    }
    let cols: usize = 2 * theta.right;
    let count: usize = if theta.left < cols {
        theta.left
    } else {
        cols
    };
    let limit: usize = limit_of_svd(count);
    let start: Instant = Instant::now();
    let factors: Option<Factors> = decompose(
        theta.left,
        cols,
        theta.data.as_slice(),
        tolerance_of_svd(),
        limit,
    );
    let ghost found = factors_of(factors);
    assert(pair_may_give(*theta, found));
    let ordered: Result<(Vec<Complex64>, Vec<Complex64>, Vec<Complex64>), GateError> =
        order_factors(theta.left, cols, factors);
    add_time(svd_nanos, &start);
    let (u, s, v_t) = match ordered {
        Ok(ordered) => ordered,
        Err(e) => {
            proof {
                if factors is Some {
                    assert(pair_may_give(*theta, Some(found->0)));
                }
            }
            return Err(e);
        },
    };
    assert(pair_may_give(*theta, Some(found->0)));
    let ghost rank = s@.len() as int;
    proof {
        assert(theta.left * rank == (l * 2) * rank);
        assert(rank * cols == rank * 2 * theta.right) by (nonlinear_arith)
            requires
                cols == 2 * theta.right,
        ;
    }
    let left: Tensor = Tensor { left: theta.left / 2, right: s.len(), data: u };
    let right: Tensor = Tensor { left: s.len(), right: theta.right, data: v_t };
    assert(is_svd_of(*theta, left, s@, right));
    proof {
        law_kept_count_is_bounded(s@, threshold, max_bond);
    }
    let (new_left, new_right) = truncate_factors(&left, &s, &right, threshold, max_bond);
    proof {
        assert(l * 2 * 2 * theta.right == size);
        lemma_bond_fits(l, theta.right as int, new_left.right as int);
    }
    Ok((new_left, new_right, false))
}

/// Whether the tensors of a pair have no bonds but the one of dimension one between them.
pub open spec fn is_product(left: Tensor, right: Tensor) -> bool {
    left.left == 1 && left.right == 1 && right.right == 1
}

/// The four amplitudes of a pair without bonds after a gate.
pub open spec fn direct_output(
    left: Tensor,
    right: Tensor,
    mat: Matrix4,
    kernel: MpsTwoQKernel,
) -> Seq<Complex64> {
    let input = seq![
        complex_mul(left.at(0, 0, 0), right.at(0, 0, 0)),
        complex_mul(left.at(0, 0, 0), right.at(0, 1, 0)),
        complex_mul(left.at(0, 1, 0), right.at(0, 0, 0)),
        complex_mul(left.at(0, 1, 0), right.at(0, 1, 0)),
    ];
    Seq::new(4, |row: int| kernel_amplitude(kernel, mat, input, row))
}

/// Applies a kernel to a pair without bonds, and splits the pair again, if it is a product.
pub fn product_pair_update(
    left: &Tensor,
    right: &Tensor,
    mat: &Matrix4,
    kernel: MpsTwoQKernel,
) -> (r: Option<(Tensor, Tensor)>)
    requires
        is_pair(*left, *right),
        kernel_wf(kernel),
    ensures
        match r {
            Some((a, b)) => is_product(*left, *right) && splits_into_tensors(
                direct_output(*left, *right, *mat, kernel),
                a,
                b,
            ) && is_replacement(1, 1, None, a, b) && a.right == 1,
            None => is_product(*left, *right) ==> splits_not(
                direct_output(*left, *right, *mat, kernel),
            ),
        },
{
    if left.left != 1 || left.right != 1 || right.right != 1 {
        return None;
    }
    let left0: Complex64 = left.get(0, 0, 0);
    let left1: Complex64 = left.get(0, 1, 0);
    let right0: Complex64 = right.get(0, 0, 0);
    let right1: Complex64 = right.get(0, 1, 0);
    let input: Vector4 = [
        mul_complex(left0, right0),
        mul_complex(left0, right1),
        mul_complex(left1, right0),
        mul_complex(left1, right1),
    ];
    let output: Vector4 = apply_mps_2q_kernel(kernel, mat, input);
    proof {
        assert(input@ =~= seq![
            complex_mul(left.at(0, 0, 0), right.at(0, 0, 0)),
            complex_mul(left.at(0, 0, 0), right.at(0, 1, 0)),
            complex_mul(left.at(0, 1, 0), right.at(0, 0, 0)),
            complex_mul(left.at(0, 1, 0), right.at(0, 1, 0)),
        ]);
        assert(output@ =~= direct_output(*left, *right, *mat, kernel));
    }
    try_rank1_factorization(output)
}

/// Whether merging a pair, applying a gate and splitting it again can end in `r`.
pub open spec fn merges_to(
    left: Tensor,
    right: Tensor,
    mat: Matrix4,
    kernel: Option<MpsTwoQKernel>,
    threshold: Complex64,
    max_bond: Option<usize>,
    r: Result<SplitPair, GateError>,
) -> bool {
    if left.left * 2 * 2 * right.right > usize::MAX {
        r is Err && r->Err_0 is TooLarge
    } else {
        exists|theta: Tensor| #[trigger]
            is_theta(left, right, mat, kernel, theta) && finishes(
                theta,
                threshold,
                max_bond,
                kernel is Some,
                r,
            )
    }
}

/// Whether a gate on a pair can end in `r`. With a kernel, a pair without bonds is first tried
/// directly.
pub open spec fn updates_to(
    left: Tensor,
    right: Tensor,
    mat: Matrix4,
    kernel: Option<MpsTwoQKernel>,
    threshold: Complex64,
    max_bond: Option<usize>,
    r: Result<SplitPair, GateError>,
) -> bool {
    if kernel is Some && is_product(left, right) {
        let output = direct_output(left, right, mat, kernel->0);
        ||| r is Ok && r->Ok_0.2 && splits_into_tensors(output, r->Ok_0.0, r->Ok_0.1)
        ||| splits_not(output) && merges_to(left, right, mat, kernel, threshold, max_bond, r)
    } else {
        merges_to(left, right, mat, kernel, threshold, max_bond, r)
    }
}

/// Applies a gate to a pair of tensors.
pub fn update_pair(
    left: &Tensor,
    right: &Tensor,
    mat: &Matrix4,
    kernel: Option<MpsTwoQKernel>,
    threshold: Complex64,
    max_bond: Option<usize>,
    svd_nanos: &mut u64,
) -> (r: Result<SplitPair, GateError>)
    requires
        is_pair(*left, *right),
        kernel matches Some(k) ==> kernel_wf(k),
    ensures
        *final(svd_nanos) >= *old(svd_nanos),
        updates_to(*left, *right, *mat, kernel, threshold, max_bond, r),
        r matches Ok((a, b, split)) ==> is_replacement(left.left, right.right, max_bond, a, b)
            && (split ==> a.right == 1),
{
    match kernel {
        Some(k) => match product_pair_update(left, right, mat, k) {
            Some((a, b)) => {
                return Ok((a, b, true));
            },
            None => {},
        },
        None => {},
    }
    let r: Result<SplitPair, GateError> = match pair_theta(left, right, mat, kernel) {
        Some(theta) => {
            let result: Result<SplitPair, GateError> = finish_adjacent_2q(
                &theta,
                threshold,
                max_bond,
                kernel.is_some(),
                svd_nanos,
            );
            assert(is_theta(*left, *right, *mat, kernel, theta));
            result
        },
        None => Err(GateError::TooLarge),
    };
    assert(merges_to(*left, *right, *mat, kernel, threshold, max_bond, r));
    r
}

} // verus!
