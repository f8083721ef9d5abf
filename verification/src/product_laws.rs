//! What products of gates do to states.

use num_complex::Complex64;
use vstd::prelude::*;

use crate::bits::{
    bit_set, clear_bit, dimension, lemma_bit_pair, lemma_combine_below, lemma_dimension_step,
    lemma_mask_below, with_bit,
};
use crate::complex::{complex_add, complex_mul, complex_one, complex_zero};
use crate::engine::{controls_hold, one_qubit_applied, Matrix2};
use crate::fusion::{accumulates, flushes, pending_on, FusedPiece, FusionState};
use crate::gate_matrix::{is_fixed_gate, is_matrix_of, is_product};
use crate::instruction::{Instruction, Kind};
use crate::stabilizer_laws::{gaussian_product, gaussian_sum, Gaussian};

verus! {

/// The column of a matrix, as the state of one qubit.
pub open spec fn column(m: Matrix2, c: int) -> Seq<Complex64> {
    seq![m[0][c], m[1][c]]
}

proof fn lemma_single_qubit_bits()
    by (bit_vector)
    ensures
        0usize & (1usize << 0usize) == 0,
        1usize & (1usize << 0usize) != 0,
        0usize & !(1usize << 0usize) == 0,
        1usize & !(1usize << 0usize) == 0,
        0usize | (1usize << 0usize) == 1,
        1usize | (1usize << 0usize) == 1,
{
}

/// What a matrix makes of the state of one qubit.
pub proof fn lemma_applied_to_one_qubit(s: Seq<Complex64>, u: Matrix2)
    requires
        s.len() == 2,
    ensures
        one_qubit_applied(s, u, 0, 1, Seq::empty()) == seq![
            complex_add(complex_mul(u[0][0], s[0]), complex_mul(u[0][1], s[1])),
            complex_add(complex_mul(u[1][0], s[0]), complex_mul(u[1][1], s[1])),
        ],
{
    lemma_single_qubit_bits();
    lemma_dimension_step(0);
    let after = one_qubit_applied(s, u, 0, 1, Seq::empty());
    let none = Seq::<(usize, bool)>::empty();
    assert(controls_hold(0, none) && controls_hold(1, none));
    assert(!bit_set(0, 0) && bit_set(1, 0));
    assert(clear_bit(0, 0) == 0 && clear_bit(1, 0) == 0);
    assert(with_bit(0, 0) == 1 && with_bit(1, 0) == 1);
    assert(after[0] == complex_add(complex_mul(u[0][0], s[0]), complex_mul(u[0][1], s[1])));
    assert(after[1] == complex_add(complex_mul(u[1][0], s[0]), complex_mul(u[1][1], s[1])));
    assert(after =~= seq![
        complex_add(complex_mul(u[0][0], s[0]), complex_mul(u[0][1], s[1])),
        complex_add(complex_mul(u[1][0], s[0]), complex_mul(u[1][1], s[1])),
    ]);
}

/// The columns of a product are the columns of the second matrix after the first one was applied
/// to them, just as a gate is applied to a qubit.
pub proof fn law_product_applies_the_first_to_the_second(
    m: Matrix2,
    a: Matrix2,
    b: Matrix2,
    c: int,
)
    requires
        is_product(m, a, b),
        0 <= c < 2,
    ensures
        column(m, c) == one_qubit_applied(column(b, c), a, 0, 1, Seq::empty()),
{
    lemma_applied_to_one_qubit(column(b, c), a);
    assert(column(m, c) =~= one_qubit_applied(column(b, c), a, 0, 1, Seq::empty()));
}

/// What waits on a qubit after another gate was fused is what that gate makes of the columns of
/// what waited before, or of those of the identity. Nothing changes on other qubits.
pub proof fn law_fused_gates_act_one_after_another(
    inst: Instruction,
    q: usize,
    before: FusionState,
    after: FusionState,
) -> (m: Matrix2)
    requires
        accumulates(inst, q, before, after),
    ensures
        is_matrix_of(inst, m),
        pending_on(after.pending, q) is Some,
        forall|c: int|
            0 <= c < 2 ==> #[trigger] column(pending_on(after.pending, q)->0, c)
                == one_qubit_applied(
                (match pending_on(before.pending, q) {
                    Some(waiting) => column(waiting, c),
                    None => if c == 0 {
                        seq![complex_one(), complex_zero()]
                    } else {
                        seq![complex_zero(), complex_one()]
                    },
                }),
                m,
                0,
                1,
                Seq::empty(),
            ),
        forall|p: usize|
            p != q ==> #[trigger] pending_on(after.pending, p) == pending_on(before.pending, p),
        after.pieces == before.pieces,
{
    let (m, acc) = choose|m: Matrix2, acc: Matrix2| #[trigger]
        is_product(pending_on(after.pending, q)->0, m, acc) && is_matrix_of(inst, m) && (
        match pending_on(before.pending, q) {
            Some(waiting) => acc == waiting,
            None => is_fixed_gate(Kind::Id, acc),
        });
    assert forall|c: int| 0 <= c < 2 implies #[trigger] column(pending_on(after.pending, q)->0, c)
        == one_qubit_applied(
        (match pending_on(before.pending, q) {
            Some(waiting) => column(waiting, c),
            None => if c == 0 {
                seq![complex_one(), complex_zero()]
            } else {
                seq![complex_zero(), complex_one()]
            },
        }),
        m,
        0,
        1,
        Seq::empty(),
    ) by {
        law_product_applies_the_first_to_the_second(pending_on(after.pending, q)->0, m, acc, c);
        if pending_on(before.pending, q) is None {
            assert(column(acc, c) =~= if c == 0 {
                seq![complex_one(), complex_zero()]
            } else {
                seq![complex_zero(), complex_one()]
            });
        }
    }
    m
}

/// Two numbers times two others, added up.
pub open spec fn two_products(
    u: Complex64,
    x: Complex64,
    v: Complex64,
    y: Complex64,
) -> Complex64 {
    complex_add(complex_mul(u, x), complex_mul(v, y))
}

/// Whether two products are added up without rounding, for a reading of numbers as complex
/// integers.
pub open spec fn adds_up(
    val: spec_fn(Complex64) -> Gaussian,
    u: Complex64,
    x: Complex64,
    v: Complex64,
    y: Complex64,
) -> bool {
    val(two_products(u, x, v, y)) == gaussian_sum(
        gaussian_product(val(u), val(x)),
        gaussian_product(val(v), val(y)),
    )
}

/// Whether a matrix is applied to two numbers without rounding.
pub open spec fn applies_exactly(
    val: spec_fn(Complex64) -> Gaussian,
    m: Matrix2,
    x: Complex64,
    y: Complex64,
) -> bool {
    adds_up(val, m[0][0], x, m[0][1], y) && adds_up(val, m[1][0], x, m[1][1], y)
}

proof fn lemma_terms(p: int, q: int, r: int, t: int, x: int)
    by (nonlinear_arith)
    ensures
        (p * q - r * t) * x == p * (q * x) - r * (t * x),
        (p * q + r * t) * x == p * (q * x) + r * (t * x),
{
}

proof fn lemma_spread(p: int, x: int, y: int)
    by (nonlinear_arith)
    ensures
        p * (x - y) == p * x - p * y,
        p * (x + y) == p * x + p * y,
{
}

pub proof fn lemma_gaussian_ring(a: Gaussian, b: Gaussian, x: Gaussian)
    ensures
        gaussian_product(gaussian_product(a, b), x) == gaussian_product(a, gaussian_product(b, x)),
{
    lemma_terms(a.re, b.re, a.im, b.im, x.re);
    lemma_terms(a.re, b.im, a.im, b.re, x.im);
    lemma_terms(a.re, b.re, a.im, b.im, x.im);
    lemma_terms(a.re, b.im, a.im, b.re, x.re);
    lemma_spread(a.re, b.re * x.re, b.im * x.im);
    lemma_spread(a.im, b.re * x.im, b.im * x.re);
    lemma_spread(a.re, b.re * x.im, b.im * x.re);
    lemma_spread(a.im, b.re * x.re, b.im * x.im);
}

pub proof fn lemma_gaussian_distributes(a: Gaussian, b: Gaussian, x: Gaussian)
    ensures
        gaussian_product(gaussian_sum(a, b), x) == gaussian_sum(
            gaussian_product(a, x),
            gaussian_product(b, x),
        ),
        gaussian_product(x, gaussian_sum(a, b)) == gaussian_sum(
            gaussian_product(x, a),
            gaussian_product(x, b),
        ),
{
    let sum = gaussian_sum(a, b);
    assert(sum.re * x.re == a.re * x.re + b.re * x.re) by (nonlinear_arith)
        requires
            sum.re == a.re + b.re,
    ;
    assert(sum.im * x.im == a.im * x.im + b.im * x.im) by (nonlinear_arith)
        requires
            sum.im == a.im + b.im,
    ;
    assert(sum.re * x.im == a.re * x.im + b.re * x.im) by (nonlinear_arith)
        requires
            sum.re == a.re + b.re,
    ;
    assert(sum.im * x.re == a.im * x.re + b.im * x.re) by (nonlinear_arith)
        requires
            sum.im == a.im + b.im,
    ;
    assert(x.re * sum.re == sum.re * x.re && x.im * sum.im == sum.im * x.im && x.im * sum.re
        == sum.re * x.im && x.re * sum.im == sum.im * x.re) by (nonlinear_arith);
    assert(x.re * a.re == a.re * x.re && x.im * a.im == a.im * x.im && x.im * a.re == a.re * x.im
        && x.re * a.im == a.im * x.re) by (nonlinear_arith);
    assert(x.re * b.re == b.re * x.re && x.im * b.im == b.im * x.im && x.im * b.re == b.re * x.im
        && x.re * b.im == b.im * x.re) by (nonlinear_arith);
}

proof fn lemma_row_of_product(
    a0: Gaussian,
    a1: Gaussian,
    b00: Gaussian,
    b01: Gaussian,
    b10: Gaussian,
    b11: Gaussian,
    x: Gaussian,
    y: Gaussian,
)
    ensures
        gaussian_sum(
            gaussian_product(gaussian_sum(gaussian_product(a0, b00), gaussian_product(a1, b10)), x),
            gaussian_product(gaussian_sum(gaussian_product(a0, b01), gaussian_product(a1, b11)), y),
        ) == gaussian_sum(
            gaussian_product(a0, gaussian_sum(gaussian_product(b00, x), gaussian_product(b01, y))),
            gaussian_product(a1, gaussian_sum(gaussian_product(b10, x), gaussian_product(b11, y))),
        ),
{
    lemma_gaussian_distributes(gaussian_product(a0, b00), gaussian_product(a1, b10), x);
    lemma_gaussian_distributes(gaussian_product(a0, b01), gaussian_product(a1, b11), y);
    lemma_gaussian_distributes(gaussian_product(b00, x), gaussian_product(b01, y), a0);
    lemma_gaussian_distributes(gaussian_product(b10, x), gaussian_product(b11, y), a1);
    lemma_gaussian_ring(a0, b00, x);
    lemma_gaussian_ring(a1, b10, x);
    lemma_gaussian_ring(a0, b01, y);
    lemma_gaussian_ring(a1, b11, y);
}

/// Applying a product is applying the second matrix and then the first one, on any two amplitudes
/// on which nothing is rounded.
pub proof fn law_product_is_composition(
    val: spec_fn(Complex64) -> Gaussian,
    m: Matrix2,
    a: Matrix2,
    b: Matrix2,
    x: Complex64,
    y: Complex64,
    r: int,
)
    requires
        is_product(m, a, b),
        0 <= r < 2,
        applies_exactly(val, b, x, y),
        applies_exactly(
            val,
            a,
            two_products(b[0][0], x, b[0][1], y),
            two_products(b[1][0], x, b[1][1], y),
        ),
        applies_exactly(val, a, b[0][0], b[1][0]),
        applies_exactly(val, a, b[0][1], b[1][1]),
        applies_exactly(val, m, x, y),
    ensures
        val(two_products(m[r][0], x, m[r][1], y)) == val(
            two_products(
                a[r][0],
                two_products(b[0][0], x, b[0][1], y),
                a[r][1],
                two_products(b[1][0], x, b[1][1], y),
            ),
        ),
{
    lemma_row_of_product(
        val(a[r][0]),
        val(a[r][1]),
        val(b[0][0]),
        val(b[0][1]),
        val(b[1][0]),
        val(b[1][1]),
        val(x),
        val(y),
    );
}

/// Running two gates on a qubit, one after another, is running their product, on a state on which
/// nothing is rounded.
pub proof fn law_product_replaces_two_gates(
    val: spec_fn(Complex64) -> Gaussian,
    s: Seq<Complex64>,
    n: usize,
    target: usize,
    m: Matrix2,
    a: Matrix2,
    b: Matrix2,
    k: usize,
)
    requires
        n < usize::BITS,
        target < n,
        k < dimension(n) <= s.len(),
        is_product(m, a, b),
        ({
            let x = s[clear_bit(k, target) as int];
            let y = s[with_bit(k, target) as int];
            &&& applies_exactly(val, b, x, y)
            &&& applies_exactly(
                val,
                a,
                two_products(b[0][0], x, b[0][1], y),
                two_products(b[1][0], x, b[1][1], y),
            )
            &&& applies_exactly(val, a, b[0][0], b[1][0])
            &&& applies_exactly(val, a, b[0][1], b[1][1])
            &&& applies_exactly(val, m, x, y)
        }),
    ensures
        val(one_qubit_applied(s, m, target, n, Seq::empty())[k as int]) == val(
            one_qubit_applied(
                one_qubit_applied(s, b, target, n, Seq::empty()),
                a,
                target,
                n,
                Seq::empty(),
            )[k as int],
        ),
{
    let none = Seq::<(usize, bool)>::empty();
    let low = clear_bit(k, target);
    let high = with_bit(k, target);
    lemma_bit_pair(k, target);
    lemma_mask_below(target, n);
    lemma_combine_below(k, 1usize << target, n);
    lemma_bit_pair(low, target);
    lemma_bit_pair(high, target);
    assert(controls_hold(low, none) && controls_hold(high, none) && controls_hold(k, none));
    assert(low < dimension(n) && high < dimension(n));
    let once = one_qubit_applied(s, b, target, n, none);
    let x = s[low as int];
    let y = s[high as int];
    assert(clear_bit(low, target) == low && with_bit(low, target) == high);
    assert(clear_bit(high, target) == low && with_bit(high, target) == high);
    assert(once[low as int] == two_products(b[0][0], x, b[0][1], y));
    assert(once[high as int] == two_products(b[1][0], x, b[1][1], y));
    law_product_is_composition(val, m, a, b, x, y, 0);
    law_product_is_composition(val, m, a, b, x, y, 1);
}

/// What is emitted for a qubit is what waits there, on that qubit, and then nothing waits there.
pub proof fn law_emitted_gates_are_those_that_waited(
    q: usize,
    before: FusionState,
    after: FusionState,
)
    requires
        flushes(q, before, after),
    ensures
        pending_on(after.pending, q) is None,
        forall|p: usize|
            p != q ==> #[trigger] pending_on(after.pending, p) == pending_on(before.pending, p),
        after.pieces == before.pieces || (pending_on(before.pending, q) matches Some(matrix)
            && after.pieces == before.pieces.push(FusedPiece::Fused1Q { qubit: q, matrix })),
{
}

} // verus!
