//! The matrices of gates on several qubits.
//!
//! The first qubit of a gate is the most significant bit of its index space. A controlled gate
//! has its controls first and its target last.

use num_complex::Complex64;
use vstd::prelude::*;

use crate::bits::{dimension, lemma_dimension_step};
use crate::complex::{
    cis_complex, complex_join, complex_mul, complex_neg, complex_one, complex_zero,
    div_real, imag_real, integer_complex, join_complex, may_be_cis, mul_complex, neg_complex, one, real_imag,
    zero,
};
use crate::engine::Matrix2;
use crate::gate_matrix::{half_of, is_u3_of, u3_gate};
use crate::mps_kernel::Matrix4;

verus! {

/// The matrices of the links between nodes, which prepare pairs of entangled qubits, and of
/// the gates that are exact only up to relative phases. They come from outside.
pub struct LinkGates {
    pub phi_plus: Matrix4,
    pub psi_minus: Matrix4,
    pub psi_plus: Matrix4,
    /// The relative-phase version of an X gate with two controls.
    pub rccx: Vec<Vec<Complex64>>,
    /// The relative-phase version of an X gate with three controls.
    pub rc3x: Vec<Vec<Complex64>>,
}

/// Whether `rows` is a square matrix.
pub open spec fn is_square(rows: Seq<Vec<Complex64>>, dim: int) -> bool {
    &&& rows.len() == dim
    &&& forall|r: int| 0 <= r < dim ==> (#[trigger] rows[r])@.len() == dim
}

impl LinkGates {
    /// Whether the matrices have the sizes that they need.
    pub open spec fn wf(&self) -> bool {
        is_square(self.rccx@, 8) && is_square(self.rc3x@, 16)
    }
}

/// The entry of a controlled gate: that of the identity, except in the last two rows and
/// columns, where the controlled matrix itself stands.
pub open spec fn controlled_entry(u: Matrix2, dim: int, r: int, c: int) -> Complex64 {
    if r >= dim - 2 && c >= dim - 2 {
        u[r - (dim - 2)][c - (dim - 2)]
    } else if r == c {
        complex_one()
    } else {
        complex_zero()
    }
}

/// Whether `rows` is the matrix of a gate with a number of controls.
pub open spec fn is_controlled(rows: Seq<Vec<Complex64>>, controls: nat, u: Matrix2) -> bool {
    let dim = 2 * dimension(controls as usize);
    &&& is_square(rows, dim)
    &&& forall|r: int, c: int|
        0 <= r < dim && 0 <= c < dim ==> #[trigger] rows[r]@[c] == controlled_entry(u, dim, r, c)
}

/// The matrix of a gate with a number of controls.
pub fn controlled_gate(controls: usize, u: &Matrix2) -> (rows: Vec<Vec<Complex64>>)
    requires
        controls <= 4,
    ensures
        is_controlled(rows@, controls as nat, *u),
{
    proof {
        lemma_small_dimensions();
    }
    let dim: usize = 2 * (1usize << controls);
    let mut rows: Vec<Vec<Complex64>> = Vec::new();
    let mut r: usize = 0;
    while r < dim
        invariant
            r <= dim,
            2 <= dim <= 32,
            rows@.len() == r,
            forall|i: int| 0 <= i < r ==> (#[trigger] rows@[i])@.len() == dim,
            forall|i: int, c: int|
                0 <= i < r && 0 <= c < dim ==> #[trigger] rows@[i]@[c] == controlled_entry(
                    *u,
                    dim as int,
                    i,
                    c,
                ),
        decreases dim - r,
    {
        let mut row: Vec<Complex64> = Vec::new();
        let mut c: usize = 0;
        while c < dim
            invariant
                c <= dim,
                r < dim,
                2 <= dim <= 32,
                row@.len() == c,
                forall|j: int|
                    0 <= j < c ==> #[trigger] row@[j] == controlled_entry(
                        *u,
                        dim as int,
                        r as int,
                        j,
                    ),
            decreases dim - c,
        {
            let entry: Complex64 = if r >= dim - 2 && c >= dim - 2 {
                u[r - (dim - 2)][c - (dim - 2)]
            } else if r == c {
                one()
            } else {
                zero()
            };
            row.push(entry);
            c = c + 1;
        }
        rows.push(row);
        r = r + 1;
    }
    rows
}

/// The dimensions of the gates in use.
pub proof fn lemma_small_dimensions()
    ensures
        dimension(0) == 1,
        dimension(1) == 2,
        dimension(2) == 4,
        dimension(3) == 8,
        dimension(4) == 16,
        dimension(5) == 32,
{
    lemma_dimension_step(0);
    lemma_dimension_step(1);
    lemma_dimension_step(2);
    lemma_dimension_step(3);
    lemma_dimension_step(4);
}

/// The row that a SWAP of the last two qubits exchanges with row `r`.
pub open spec fn swap_partner(dim: int, r: int) -> int {
    if r == dim - 3 {
        dim - 2
    } else if r == dim - 2 {
        dim - 3
    } else {
        r
    }
}

/// Whether `rows` is the matrix of a SWAP with a number of controls.
pub open spec fn is_controlled_swap(rows: Seq<Vec<Complex64>>, controls: nat) -> bool {
    let dim = 4 * dimension(controls as usize);
    &&& is_square(rows, dim)
    &&& forall|r: int, c: int|
        0 <= r < dim && 0 <= c < dim ==> #[trigger] rows[r]@[c] == (if c == swap_partner(dim, r) {
            complex_one()
        } else {
            complex_zero()
        })
}

/// The matrix of a SWAP with a number of controls.
pub fn controlled_swap(controls: usize) -> (rows: Vec<Vec<Complex64>>)
    requires
        controls <= 3,
    ensures
        is_controlled_swap(rows@, controls as nat),
{
    proof {
        lemma_small_dimensions();
    }
    let dim: usize = 4 * (1usize << controls);
    let mut rows: Vec<Vec<Complex64>> = Vec::new();
    let mut r: usize = 0;
    while r < dim
        invariant
            r <= dim,
            4 <= dim <= 32,
            rows@.len() == r,
            forall|i: int| 0 <= i < r ==> (#[trigger] rows@[i])@.len() == dim,
            forall|i: int, c: int|
                0 <= i < r && 0 <= c < dim ==> #[trigger] rows@[i]@[c] == (if c == swap_partner(
                    dim as int,
                    i,
                ) {
                    complex_one()
                } else {
                    complex_zero()
                }),
        decreases dim - r,
    {
        let partner: usize = if r == dim - 3 {
            dim - 2
        } else if r == dim - 2 {
            dim - 3
        } else {
            r
        };
        let mut row: Vec<Complex64> = Vec::new();
        let mut c: usize = 0;
        while c < dim
            invariant
                c <= dim,
                row@.len() == c,
                forall|j: int|
                    0 <= j < c ==> #[trigger] row@[j] == (if j == partner {
                        complex_one()
                    } else {
                        complex_zero()
                    }),
            decreases dim - c,
        {
            if c == partner {
                row.push(one());
            } else {
                row.push(zero());
            }
            c = c + 1;
        }
        rows.push(row);
        r = r + 1;
    }
    rows
}

/// Whether `m` is the matrix of a gate with one control.
pub open spec fn is_controlled_4(m: Matrix4, u: Matrix2) -> bool {
    forall|r: int, c: int|
        0 <= r < 4 && 0 <= c < 4 ==> #[trigger] m[r][c] == controlled_entry(u, 4, r, c)
}

/// The matrix of a gate with one control.
pub fn controlled_4(u: &Matrix2) -> (m: Matrix4)
    ensures
        is_controlled_4(m, *u),
{
    [
        [one(), zero(), zero(), zero()],
        [zero(), one(), zero(), zero()],
        [zero(), zero(), u[0][0], u[0][1]],
        [zero(), zero(), u[1][0], u[1][1]],
    ]
}

/// Whether `m` is the matrix of a SWAP.
pub open spec fn is_swap_4(m: Matrix4) -> bool {
    forall|r: int, c: int|
        0 <= r < 4 && 0 <= c < 4 ==> #[trigger] m[r][c] == (if c == swap_partner(4, r) {
            complex_one()
        } else {
            complex_zero()
        })
}

/// The matrix of a SWAP.
pub fn swap_4() -> (m: Matrix4)
    ensures
        is_swap_4(m),
{
    [
        [one(), zero(), zero(), zero()],
        [zero(), zero(), one(), zero()],
        [zero(), one(), zero(), zero()],
        [zero(), zero(), zero(), one()],
    ]
}

/// Whether `m` is the rotation of two qubits about their first axes; `turn` holds the cosine
/// and the sine of half the angle.
pub open spec fn is_rxx(m: Matrix4, turn: Complex64) -> bool {
    forall|r: int, c: int|
        0 <= r < 4 && 0 <= c < 4 ==> #[trigger] m[r][c] == (if r == c {
            complex_join(turn, complex_zero())
        } else if r + c == 3 {
            complex_join(complex_zero(), complex_neg(real_imag(turn)))
        } else {
            complex_zero()
        })
}

/// The rotation of two qubits about their first axes, from the cosine and the sine of half
/// the angle.
pub fn rxx_matrix(turn: Complex64) -> (m: Matrix4)
    ensures
        is_rxx(m, turn),
{
    let d: Complex64 = join_complex(turn, zero());
    let o: Complex64 = join_complex(zero(), neg_complex(imag_real(turn)));
    [
        [d, zero(), zero(), o],
        [zero(), d, o, zero()],
        [zero(), o, d, zero()],
        [o, zero(), zero(), d],
    ]
}

/// Whether `m` is the rotation of two qubits about their third axes; `back` and `turn` hold
/// the cosines and sines of minus and plus half the angle.
pub open spec fn is_rzz(m: Matrix4, back: Complex64, turn: Complex64) -> bool {
    forall|r: int, c: int|
        0 <= r < 4 && 0 <= c < 4 ==> #[trigger] m[r][c] == (if r != c {
            complex_zero()
        } else if r == 0 || r == 3 {
            back
        } else {
            turn
        })
}

/// The rotation of two qubits about their third axes, from the cosines and sines of minus and
/// plus half the angle.
pub fn rzz_matrix(back: Complex64, turn: Complex64) -> (m: Matrix4)
    ensures
        is_rzz(m, back, turn),
{
    [
        [back, zero(), zero(), zero()],
        [zero(), turn, zero(), zero()],
        [zero(), zero(), turn, zero()],
        [zero(), zero(), zero(), back],
    ]
}

/// Whether `m` can be the rotation of two qubits by `theta` about their first axes.
pub open spec fn is_rxx_of(m: Matrix4, theta: Complex64) -> bool {
    exists|turn: Complex64| #[trigger] is_rxx(m, turn) && may_be_cis(half_of(theta), turn)
}

/// Whether `m` can be the rotation of two qubits by `theta` about their third axes.
pub open spec fn is_rzz_of(m: Matrix4, theta: Complex64) -> bool {
    exists|back: Complex64, turn: Complex64| #[trigger]
        is_rzz(m, back, turn) && may_be_cis(half_of(complex_neg(theta)), back) && may_be_cis(
            half_of(theta),
            turn,
        )
}

/// The rotation of two qubits by `theta` about their first axes.
pub fn rxx_gate(theta: Complex64) -> (m: Matrix4)
    ensures
        is_rxx_of(m, theta),
{
    rxx_matrix(cis_complex(div_real(theta, integer_complex(2, 0))))
}

/// The rotation of two qubits by `theta` about their third axes.
pub fn rzz_gate(theta: Complex64) -> (m: Matrix4)
    ensures
        is_rzz_of(m, theta),
{
    let two: Complex64 = integer_complex(2, 0);
    let back: Complex64 = cis_complex(div_real(neg_complex(theta), two));
    rzz_matrix(back, cis_complex(div_real(theta, two)))
}

/// Whether `m` is `inner` with every entry multiplied by a phase factor.
pub open spec fn is_phased(m: Matrix2, phase: Complex64, inner: Matrix2) -> bool {
    forall|r: int, c: int|
        0 <= r < 2 && 0 <= c < 2 ==> #[trigger] m[r][c] == complex_mul(phase, inner[r][c])
}

/// Multiplies every entry of a matrix by a phase factor.
pub fn phased_matrix(phase: Complex64, inner: &Matrix2) -> (m: Matrix2)
    ensures
        is_phased(m, phase, *inner),
{
    [
        [mul_complex(phase, inner[0][0]), mul_complex(phase, inner[0][1])],
        [mul_complex(phase, inner[1][0]), mul_complex(phase, inner[1][1])],
    ]
}

/// Whether `m` can be the general rotation with the phase `gamma` of its own.
pub open spec fn is_cu_inner(
    m: Matrix2,
    theta: Complex64,
    phi: Complex64,
    lam: Complex64,
    gamma: Complex64,
) -> bool {
    exists|phase: Complex64, inner: Matrix2| #[trigger]
        is_phased(m, phase, inner) && may_be_cis(gamma, phase) && is_u3_of(inner, theta, phi, lam)
}

/// The general rotation with a phase of its own, which a controlled gate applies to its
/// target.
pub fn cu_inner_matrix(theta: Complex64, phi: Complex64, lam: Complex64, gamma: Complex64) -> (m:
    Matrix2)
    ensures
        is_cu_inner(m, theta, phi, lam, gamma),
{
    let phase: Complex64 = cis_complex(gamma);
    let inner: Matrix2 = u3_gate(theta, phi, lam);
    let m: Matrix2 = phased_matrix(phase, &inner);
    assert(is_phased(m, phase, inner));
    m
}

/// Whether `rows` holds the entries of `m`.
pub open spec fn holds_4(rows: Seq<Vec<Complex64>>, m: Matrix4) -> bool {
    is_square(rows, 4) && forall|r: int, c: int|
        0 <= r < 4 && 0 <= c < 4 ==> #[trigger] rows[r]@[c] == m[r][c]
}

/// The rows of a two-qubit gate.
pub fn rows_of_4(m: &Matrix4) -> (rows: Vec<Vec<Complex64>>)
    ensures
        holds_4(rows@, *m),
{
    let mut rows: Vec<Vec<Complex64>> = Vec::new();
    let mut r: usize = 0;
    while r < 4
        invariant
            r <= 4,
            rows@.len() == r,
            forall|i: int| 0 <= i < r ==> (#[trigger] rows@[i])@.len() == 4,
            forall|i: int, c: int|
                0 <= i < r && 0 <= c < 4 ==> #[trigger] rows@[i]@[c] == m[i][c],
        decreases 4 - r,
    {
        let mut row: Vec<Complex64> = Vec::new();
        row.push(m[r][0]);
        row.push(m[r][1]);
        row.push(m[r][2]);
        row.push(m[r][3]);
        rows.push(row);
        r = r + 1;
    }
    rows
}

/// A copy of a matrix.
pub fn copy_rows(rows: &Vec<Vec<Complex64>>) -> (out: Vec<Vec<Complex64>>)
    ensures
        out@.len() == rows@.len(),
        forall|r: int| 0 <= r < rows@.len() ==> (#[trigger] out@[r])@ == rows@[r]@,
{
    let mut out: Vec<Vec<Complex64>> = Vec::new();
    let mut r: usize = 0;
    while r < rows.len()
        invariant
            r <= rows@.len(),
            out@.len() == r,
            forall|i: int| 0 <= i < r ==> (#[trigger] out@[i])@ == rows@[i]@,
        decreases rows@.len() - r,
    {
        out.push(vstd::slice::slice_to_vec(rows[r].as_slice()));
        r = r + 1;
    }
    out
}

} // verus!
