//! The matrices of one-qubit gates.
//!
//! The entries of a parametric gate are built from cosines and sines, whose last digits
//! depend on the platform. The functions that take those values as arguments say exactly
//! what they build from them, and those that take angles say which angles the values are of.

use num_complex::Complex64;
use vstd::prelude::*;

use crate::complex::{
    add_complex, cis_complex, complex_add, complex_join, complex_mul, complex_neg, complex_of,
    complex_one, complex_sub, complex_zero, div_real, imag_real, integer_complex, join_complex,
    less_real, may_be_cis, may_be_norm,
    mul_complex, mul_real, neg_complex, norm_complex, one, real_div, real_imag, real_less,
    real_mul, real_sqrt, sqrt_real, sub_complex, tiny, tiny_real, zero,
};
use crate::engine::Matrix2;
use crate::instruction::{Instruction, Kind};

verus! {

/// Whether the entries of `m` are `a`, `b` in the first row and `c`, `d` in the second.
pub open spec fn has_entries(
    m: Matrix2,
    a: Complex64,
    b: Complex64,
    c: Complex64,
    d: Complex64,
) -> bool {
    &&& m[0][0] == a
    &&& m[0][1] == b
    &&& m[1][0] == c
    &&& m[1][1] == d
}

/// One half.
pub open spec fn half() -> Complex64 {
    real_div(complex_one(), complex_of(2, 0))
}

/// The square root of one half.
pub open spec fn half_root() -> Complex64 {
    real_sqrt(half())
}

/// A real number with the opposite sign.
pub open spec fn real_neg(a: Complex64) -> Complex64 {
    complex_join(complex_neg(a), complex_zero())
}

/// Whether `m` is the matrix of the general rotation whose cosines and sines are given: of
/// half the polar angle in `turn`, of the two phases in `e_phi` and `e_lam`, and of their sum
/// in `e_sum`.
pub open spec fn is_u3(
    m: Matrix2,
    turn: Complex64,
    e_phi: Complex64,
    e_lam: Complex64,
    e_sum: Complex64,
) -> bool {
    let ct = complex_join(turn, complex_zero());
    let st = real_imag(turn);
    has_entries(
        m,
        ct,
        complex_neg(complex_mul(e_lam, st)),
        complex_mul(e_phi, st),
        complex_mul(e_sum, ct),
    )
}

/// Whether `m` is the matrix of the phase gate with the phase factor `e`.
pub open spec fn is_phase(m: Matrix2, e: Complex64) -> bool {
    has_entries(m, complex_one(), complex_zero(), complex_zero(), e)
}

/// Whether `m` is the rotation about the first axis; `turn` holds the cosine and the sine of
/// half the angle.
pub open spec fn is_rx(m: Matrix2, turn: Complex64) -> bool {
    let cv = complex_join(turn, complex_zero());
    let off = complex_join(complex_zero(), complex_neg(real_imag(turn)));
    has_entries(m, cv, off, off, cv)
}

/// Whether `m` is the rotation about the second axis; `turn` holds the cosine and the sine of
/// half the angle.
pub open spec fn is_ry(m: Matrix2, turn: Complex64) -> bool {
    let cv = complex_join(turn, complex_zero());
    let sv = real_imag(turn);
    has_entries(m, cv, real_neg(sv), sv, cv)
}

/// Whether `m` is the rotation about the third axis; `back` and `turn` hold the cosines and
/// sines of minus and plus half the angle.
pub open spec fn is_rz(m: Matrix2, back: Complex64, turn: Complex64) -> bool {
    has_entries(m, back, complex_zero(), complex_zero(), turn)
}

/// Whether `m` is the matrix of a one-qubit gate without parameters.
pub open spec fn is_fixed_gate(kind: Kind, m: Matrix2) -> bool {
    let zero = complex_zero();
    let one = complex_one();
    let s = half_root();
    let h = half();
    let plus = complex_join(h, h);
    let minus = complex_join(h, complex_neg(h));
    match kind {
        Kind::Id | Kind::U0 => has_entries(m, one, zero, zero, one),
        Kind::X => has_entries(m, zero, one, one, zero),
        Kind::Y => has_entries(m, zero, complex_of(0, -1), complex_of(0, 1), zero),
        Kind::Z => has_entries(m, one, zero, zero, complex_of(-1, 0)),
        Kind::H => has_entries(m, s, s, s, real_neg(s)),
        Kind::S => is_phase(m, complex_of(0, 1)),
        Kind::Sdg => is_phase(m, complex_of(0, -1)),
        Kind::T => is_phase(m, complex_join(s, s)),
        Kind::Tdg => is_phase(m, complex_join(s, complex_neg(s))),
        Kind::Sx => has_entries(m, plus, minus, minus, plus),
        Kind::Sxdg => has_entries(m, minus, plus, plus, minus),
        _ => false,
    }
}

/// Half of an angle.
pub open spec fn half_of(angle: Complex64) -> Complex64 {
    real_div(angle, complex_of(2, 0))
}

/// The number pi, as 884279719003555 over 2 to the power of 48.
pub open spec fn pi_value() -> Complex64 {
    let power = complex_of(16777216, 0);
    real_div(
        complex_add(real_mul(complex_of(52707178, 0), power), complex_of(8947107, 0)),
        real_mul(power, power),
    )
}

/// Whether `m` can be the general rotation with the polar angle `theta` and the phases `phi`
/// and `lam`.
pub open spec fn is_u3_of(m: Matrix2, theta: Complex64, phi: Complex64, lam: Complex64) -> bool {
    exists|turn: Complex64, e_phi: Complex64, e_lam: Complex64, e_sum: Complex64| #[trigger]
        is_u3(m, turn, e_phi, e_lam, e_sum) && may_be_cis(half_of(theta), turn) && may_be_cis(
            phi,
            e_phi,
        ) && may_be_cis(lam, e_lam) && may_be_cis(complex_add(phi, lam), e_sum)
}

/// Whether `m` can be the phase gate with the phase `lam`.
pub open spec fn is_phase_of(m: Matrix2, lam: Complex64) -> bool {
    exists|e: Complex64| #[trigger] is_phase(m, e) && may_be_cis(lam, e)
}

/// Whether `m` can be the rotation by `theta` about the first axis.
pub open spec fn is_rx_of(m: Matrix2, theta: Complex64) -> bool {
    exists|turn: Complex64| #[trigger] is_rx(m, turn) && may_be_cis(half_of(theta), turn)
}

/// Whether `m` can be the rotation by `theta` about the second axis.
pub open spec fn is_ry_of(m: Matrix2, theta: Complex64) -> bool {
    exists|turn: Complex64| #[trigger] is_ry(m, turn) && may_be_cis(half_of(theta), turn)
}

/// Whether `m` can be the rotation by `phi` about the third axis.
pub open spec fn is_rz_of(m: Matrix2, phi: Complex64) -> bool {
    exists|back: Complex64, turn: Complex64| #[trigger]
        is_rz(m, back, turn) && may_be_cis(half_of(complex_neg(phi)), back) && may_be_cis(
            half_of(phi),
            turn,
        )
}

/// Whether `m` can be the matrix of a one-qubit gate: exactly that of a gate without
/// parameters, and otherwise one built from the cosines and sines of its angles.
pub open spec fn is_matrix_of(inst: Instruction, m: Matrix2) -> bool {
    match inst {
        Instruction::U3 { theta, phi, lam, .. } | Instruction::U { theta, phi, lam, .. } =>
            is_u3_of(m, theta, phi, lam),
        Instruction::U2 { phi, lam, .. } => is_u3_of(m, half_of(pi_value()), phi, lam),
        Instruction::U1 { lam, .. } | Instruction::P { lam, .. } => is_phase_of(m, lam),
        Instruction::Rx { theta, .. } => is_rx_of(m, theta),
        Instruction::Ry { theta, .. } => is_ry_of(m, theta),
        Instruction::Rz { phi, .. } => is_rz_of(m, phi),
        _ => is_fixed_gate(inst.kind(), m),
    }
}

/// The qubit of a one-qubit gate; nothing for any other instruction.
pub open spec fn single_gate_qubit(inst: Instruction) -> Option<usize> {
    match inst {
        Instruction::Id { qubit }
        | Instruction::X { qubit }
        | Instruction::Y { qubit }
        | Instruction::Z { qubit }
        | Instruction::H { qubit }
        | Instruction::S { qubit }
        | Instruction::Sdg { qubit }
        | Instruction::T { qubit }
        | Instruction::Tdg { qubit }
        | Instruction::Sx { qubit }
        | Instruction::Sxdg { qubit }
        | Instruction::U3 { qubit, .. }
        | Instruction::U2 { qubit, .. }
        | Instruction::U1 { qubit, .. }
        | Instruction::U { qubit, .. }
        | Instruction::P { qubit, .. }
        | Instruction::Rx { qubit, .. }
        | Instruction::Ry { qubit, .. }
        | Instruction::Rz { qubit, .. }
        | Instruction::U0 { qubit } => Some(qubit),
        _ => None,
    }
}

/// The identity.
pub fn identity_2x2() -> (m: Matrix2)
    ensures
        is_fixed_gate(Kind::Id, m),
{
    [[one(), zero()], [zero(), one()]]
}

/// The matrix of a one-qubit gate without parameters.
pub fn fixed_gate(kind: Kind) -> (m: Matrix2)
    requires
        kind is Id || kind is U0 || kind is X || kind is Y || kind is Z || kind is H || kind is S
            || kind is Sdg || kind is T || kind is Tdg || kind is Sx || kind is Sxdg,
    ensures
        is_fixed_gate(kind, m),
{
    let h: Complex64 = div_real(one(), integer_complex(2, 0));
    let s: Complex64 = sqrt_real(h);
    let plus: Complex64 = join_complex(h, h);
    let minus: Complex64 = join_complex(h, neg_complex(h));
    match kind {
        Kind::X => [[zero(), one()], [one(), zero()]],
        Kind::Y => [[zero(), integer_complex(0, -1)], [integer_complex(0, 1), zero()]],
        Kind::Z => [[one(), zero()], [zero(), integer_complex(-1, 0)]],
        Kind::H => [[s, s], [s, join_complex(neg_complex(s), zero())]],
        Kind::S => [[one(), zero()], [zero(), integer_complex(0, 1)]],
        Kind::Sdg => [[one(), zero()], [zero(), integer_complex(0, -1)]],
        Kind::T => [[one(), zero()], [zero(), join_complex(s, s)]],
        Kind::Tdg => [[one(), zero()], [zero(), join_complex(s, neg_complex(s))]],
        Kind::Sx => [[plus, minus], [minus, plus]],
        Kind::Sxdg => [[minus, plus], [plus, minus]],
        _ => [[one(), zero()], [zero(), one()]],
    }
}

/// The matrix of the general rotation, from its cosines and sines.
pub fn u3_matrix(turn: Complex64, e_phi: Complex64, e_lam: Complex64, e_sum: Complex64) -> (m:
    Matrix2)
    ensures
        is_u3(m, turn, e_phi, e_lam, e_sum),
{
    let ct: Complex64 = join_complex(turn, zero());
    let st: Complex64 = imag_real(turn);
    [
        [ct, neg_complex(mul_complex(e_lam, st))],
        [mul_complex(e_phi, st), mul_complex(e_sum, ct)],
    ]
}

/// The matrix of the phase gate, from its phase factor.
pub fn phase_matrix(e: Complex64) -> (m: Matrix2)
    ensures
        is_phase(m, e),
{
    [[one(), zero()], [zero(), e]]
}

/// The rotation about the first axis, from the cosine and the sine of half the angle.
pub fn rx_matrix(turn: Complex64) -> (m: Matrix2)
    ensures
        is_rx(m, turn),
{
    let cv: Complex64 = join_complex(turn, zero());
    let off: Complex64 = join_complex(zero(), neg_complex(imag_real(turn)));
    [[cv, off], [off, cv]]
}

/// The rotation about the second axis, from the cosine and the sine of half the angle.
pub fn ry_matrix(turn: Complex64) -> (m: Matrix2)
    ensures
        is_ry(m, turn),
{
    let cv: Complex64 = join_complex(turn, zero());
    let sv: Complex64 = imag_real(turn);
    [[cv, join_complex(neg_complex(sv), zero())], [sv, cv]]
}

/// The rotation about the third axis, from the cosines and sines of minus and plus half the
/// angle.
pub fn rz_matrix(back: Complex64, turn: Complex64) -> (m: Matrix2)
    ensures
        is_rz(m, back, turn),
{
    [[back, zero()], [zero(), turn]]
}

/// Half of an angle.
fn half_angle(angle: Complex64) -> (r: Complex64)
    ensures
        r == half_of(angle),
{
    div_real(angle, integer_complex(2, 0))
}

/// The number pi, as 884279719003555 over 2 to the power of 48.
fn pi() -> (r: Complex64)
    ensures
        r == pi_value(),
{
    let power: Complex64 = integer_complex(16777216, 0);
    let high: Complex64 = mul_real(integer_complex(52707178, 0), power);
    let numerator: Complex64 = add_complex(high, integer_complex(8947107, 0));
    div_real(numerator, mul_real(power, power))
}

/// The qubit and the matrix of a one-qubit gate; nothing for any other instruction.
pub fn gate_matrix_1q(inst: &Instruction) -> (r: Option<(usize, Matrix2)>)
    ensures
        match (single_gate_qubit(*inst), r) {
            (Some(q), Some((qubit, m))) => q == qubit && is_matrix_of(*inst, m),
            (None, None) => true,
            _ => false,
        },
{
    match inst {
        Instruction::Id { qubit } => Some((*qubit, fixed_gate(Kind::Id))),
        Instruction::U0 { qubit } => Some((*qubit, fixed_gate(Kind::U0))),
        Instruction::X { qubit } => Some((*qubit, fixed_gate(Kind::X))),
        Instruction::Y { qubit } => Some((*qubit, fixed_gate(Kind::Y))),
        Instruction::Z { qubit } => Some((*qubit, fixed_gate(Kind::Z))),
        Instruction::H { qubit } => Some((*qubit, fixed_gate(Kind::H))),
        Instruction::S { qubit } => Some((*qubit, fixed_gate(Kind::S))),
        Instruction::Sdg { qubit } => Some((*qubit, fixed_gate(Kind::Sdg))),
        Instruction::T { qubit } => Some((*qubit, fixed_gate(Kind::T))),
        Instruction::Tdg { qubit } => Some((*qubit, fixed_gate(Kind::Tdg))),
        Instruction::Sx { qubit } => Some((*qubit, fixed_gate(Kind::Sx))),
        Instruction::Sxdg { qubit } => Some((*qubit, fixed_gate(Kind::Sxdg))),
        Instruction::U3 { qubit, theta, phi, lam } | Instruction::U { qubit, theta, phi, lam } => {
            Some((*qubit, u3_gate(*theta, *phi, *lam)))
        },
        Instruction::U2 { qubit, phi, lam } => Some((*qubit, u2_gate(*phi, *lam))),
        Instruction::U1 { qubit, lam } | Instruction::P { qubit, lam } => {
            Some((*qubit, u1_gate(*lam)))
        },
        Instruction::Rx { qubit, theta } => Some((*qubit, rx_gate(*theta))),
        Instruction::Ry { qubit, theta } => Some((*qubit, ry_gate(*theta))),
        Instruction::Rz { qubit, phi } => Some((*qubit, rz_gate(*phi))),
        _ => None,
    }
}

/// The general rotation with the polar angle `theta` and the phases `phi` and `lam`.
pub fn u3_gate(theta: Complex64, phi: Complex64, lam: Complex64) -> (m: Matrix2)
    ensures
        is_u3_of(m, theta, phi, lam),
{
    let turn: Complex64 = cis_complex(half_angle(theta));
    let e_sum: Complex64 = cis_complex(add_complex(phi, lam));
    u3_matrix(turn, cis_complex(phi), cis_complex(lam), e_sum)
}

/// The general rotation with the polar angle pi over two.
pub fn u2_gate(phi: Complex64, lam: Complex64) -> (m: Matrix2)
    ensures
        is_u3_of(m, half_of(pi_value()), phi, lam),
{
    u3_gate(half_angle(pi()), phi, lam)
}

/// The phase gate with the phase `lam`.
pub fn u1_gate(lam: Complex64) -> (m: Matrix2)
    ensures
        is_phase_of(m, lam),
{
    phase_matrix(cis_complex(lam))
}

/// The rotation by `theta` about the first axis.
pub fn rx_gate(theta: Complex64) -> (m: Matrix2)
    ensures
        is_rx_of(m, theta),
{
    rx_matrix(cis_complex(half_angle(theta)))
}

/// The rotation by `theta` about the second axis.
pub fn ry_gate(theta: Complex64) -> (m: Matrix2)
    ensures
        is_ry_of(m, theta),
{
    ry_matrix(cis_complex(half_angle(theta)))
}

/// The rotation by `phi` about the third axis.
pub fn rz_gate(phi: Complex64) -> (m: Matrix2)
    ensures
        is_rz_of(m, phi),
{
    let back: Complex64 = cis_complex(half_angle(neg_complex(phi)));
    rz_matrix(back, cis_complex(half_angle(phi)))
}

/// Whether `m` is the product of `a` and `b`.
pub open spec fn is_product(m: Matrix2, a: Matrix2, b: Matrix2) -> bool {
    has_entries(
        m,
        complex_add(complex_mul(a[0][0], b[0][0]), complex_mul(a[0][1], b[1][0])),
        complex_add(complex_mul(a[0][0], b[0][1]), complex_mul(a[0][1], b[1][1])),
        complex_add(complex_mul(a[1][0], b[0][0]), complex_mul(a[1][1], b[1][0])),
        complex_add(complex_mul(a[1][0], b[0][1]), complex_mul(a[1][1], b[1][1])),
    )
}

/// The product of two matrices. That of two identities is the identity.
pub fn matmul2x2(a: Matrix2, b: Matrix2) -> (m: Matrix2)
    ensures
        is_product(m, a, b),
        is_fixed_gate(Kind::Id, a) && is_fixed_gate(Kind::Id, b) ==> is_fixed_gate(Kind::Id, m),
{
    [
        [
            add_complex(mul_complex(a[0][0], b[0][0]), mul_complex(a[0][1], b[1][0])),
            add_complex(mul_complex(a[0][0], b[0][1]), mul_complex(a[0][1], b[1][1])),
        ],
        [
            add_complex(mul_complex(a[1][0], b[0][0]), mul_complex(a[1][1], b[1][0])),
            add_complex(mul_complex(a[1][0], b[0][1]), mul_complex(a[1][1], b[1][1])),
        ],
    ]
}

/// Whether four distances are all below `1e-10`.
pub fn all_negligible(d00: Complex64, d01: Complex64, d10: Complex64, d11: Complex64) -> (r: bool)
    ensures
        r == are_negligible(d00, d01, d10, d11),
        d00 == complex_zero() && d01 == complex_zero() && d10 == complex_zero() && d11
            == complex_zero() ==> r,
{
    let tolerance: Complex64 = tiny_real(10);
    less_real(d00, tolerance) && less_real(d01, tolerance) && less_real(d10, tolerance)
        && less_real(d11, tolerance)
}

/// Whether four distances are all below `1e-10`.
pub open spec fn are_negligible(
    d00: Complex64,
    d01: Complex64,
    d10: Complex64,
    d11: Complex64,
) -> bool {
    real_less(d00, tiny(10)) && real_less(d01, tiny(10)) && real_less(d10, tiny(10)) && real_less(
        d11,
        tiny(10),
    )
}

/// Whether four numbers can be the distances of the entries of a matrix from those of the
/// identity.
pub open spec fn are_distances(
    m: Matrix2,
    d00: Complex64,
    d01: Complex64,
    d10: Complex64,
    d11: Complex64,
) -> bool {
    &&& may_be_norm(complex_sub(m[0][0], complex_one()), d00)
    &&& may_be_norm(m[0][1], d01)
    &&& may_be_norm(m[1][0], d10)
    &&& may_be_norm(complex_sub(m[1][1], complex_one()), d11)
}

/// Whether `verdict` can come out when a matrix is compared with the identity: it tells
/// whether the distances of the entries are all below `1e-10`.
pub open spec fn reads_as_identity(m: Matrix2, verdict: bool) -> bool {
    exists|d00: Complex64, d01: Complex64, d10: Complex64, d11: Complex64| #[trigger]
        are_distances(m, d00, d01, d10, d11) && verdict == are_negligible(d00, d01, d10, d11)
}

/// Whether every entry of a matrix is closer than `1e-10` to that of the identity. The identity
/// itself is.
pub fn is_identity_2x2(m: &Matrix2) -> (r: bool)
    ensures
        reads_as_identity(*m, r),
        is_fixed_gate(Kind::Id, *m) ==> r,
{
    let d00: Complex64 = norm_complex(sub_complex(m[0][0], one()));
    let d01: Complex64 = norm_complex(m[0][1]);
    let d10: Complex64 = norm_complex(m[1][0]);
    let d11: Complex64 = norm_complex(sub_complex(m[1][1], one()));
    assert(are_distances(*m, d00, d01, d10, d11));
    all_negligible(d00, d01, d10, d11)
}

} // verus!
