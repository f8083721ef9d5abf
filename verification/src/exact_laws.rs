//! What two-qubit gates do to the amplitudes of a matrix product state in exact arithmetic.
//!
//! Numbers are read as complex integers such that sums and products are exact, and a pair of
//! tensors is split such that nothing is lost. Then the amplitudes after a gate are those that its
//! matrix makes of the amplitudes before.

use num_complex::Complex64;
use vstd::prelude::*;

use crate::bits::{
    bit_mask, bit_set, clear_bit, lemma_bit_ops, lemma_bits_determine, lemma_mask_bit, with_bit,
};
use crate::complex::{
    complex_add, complex_mul, complex_neg, complex_of, complex_one, complex_zero, real_less,
    real_mul,
};
use crate::engine::Matrix2;
use crate::gate_error::GateError;
use crate::gate_laws::is_plain_form;
use crate::gate_matrix::{is_matrix_of, single_gate_qubit};
use crate::gates::LinkGates;
use crate::instruction::Instruction;
use crate::mps::{pair_replaced, same_settings, Mps};
use crate::mps_gates::{one_swap, physical_swap, swaps_down, swaps_up};
use crate::mps_kernel::{is_negligible, Matrix4, MpsTwoQKernel};
use crate::mps_laws::{
    acts_on_pair, hint_fits, is_brought, is_exchange_matrix, is_gate_on_pair, is_gate_split,
    is_guard_matrix, is_made_by, larger, law_routing_swaps_exchange_neighbours,
    law_two_qubit_gates_act_on_their_qubits, lemma_action_matrix, may_be_left_out, own_entry,
    own_term, product_input, smaller, stands_for,
};
use crate::mps_pair::{
    finishes, pair_amplitude, pair_input, pair_sum, splits_into_tensors, SplitPair,
};
use crate::mps_routing::neighbours_swapped;
use crate::mps_run::{acts_to, is_mps_action_of, mps_steps_to, MpsAction, MpsPoint};
use crate::mps_state::{amplitude, bit_value, carried, carry_sum};
use crate::mps_svd::{is_truncation, kept_count, square_sum, truncation_scale};
use crate::mps_tensor::{is_entry, Tensor};
use crate::product_laws::{lemma_gaussian_distributes, lemma_gaussian_ring};
use crate::stabilizer_laws::{gaussian_product, gaussian_sum, Gaussian};
use crate::statevector::is_target_matrix;

verus! {

/// The number zero.
pub open spec fn nothing() -> Gaussian {
    Gaussian { re: 0, im: 0 }
}

/// The sum of the first `n` values of a function.
pub open spec fn total(f: spec_fn(int) -> Gaussian, n: int) -> Gaussian
    decreases n,
{
    if n <= 0 {
        nothing()
    } else {
        gaussian_sum(total(f, n - 1), f(n - 1))
    }
}

pub proof fn lemma_total_same(f: spec_fn(int) -> Gaussian, g: spec_fn(int) -> Gaussian, n: int)
    requires
        forall|i: int| 0 <= i < n ==> #[trigger] f(i) == g(i),
    ensures
        total(f, n) == total(g, n),
    decreases n,
{
    if n > 0 {
        lemma_total_same(f, g, n - 1);
        assert(f(n - 1) == g(n - 1));
    }
}

pub proof fn lemma_commutes(a: Gaussian, b: Gaussian)
    ensures
        gaussian_product(a, b) == gaussian_product(b, a),
{
    assert(a.re * b.re == b.re * a.re && a.im * b.im == b.im * a.im && a.re * b.im == b.im * a.re
        && a.im * b.re == b.re * a.im) by (nonlinear_arith);
}

pub proof fn lemma_total_scaled(x: Gaussian, f: spec_fn(int) -> Gaussian, n: int)
    ensures
        gaussian_product(x, total(f, n)) == total(|i: int| gaussian_product(x, f(i)), n),
        gaussian_product(total(f, n), x) == total(|i: int| gaussian_product(f(i), x), n),
    decreases n,
{
    if n > 0 {
        lemma_total_scaled(x, f, n - 1);
        lemma_gaussian_distributes(total(f, n - 1), f(n - 1), x);
    } else {
        assert(x.re * 0 == 0 && x.im * 0 == 0 && 0 * x.re == 0 && 0 * x.im == 0)
            by (nonlinear_arith);
    }
}

pub proof fn lemma_total_added(f: spec_fn(int) -> Gaussian, g: spec_fn(int) -> Gaussian, n: int)
    ensures
        total(|i: int| gaussian_sum(f(i), g(i)), n) == gaussian_sum(total(f, n), total(g, n)),
    decreases n,
{
    if n > 0 {
        lemma_total_added(f, g, n - 1);
    }
}

proof fn lemma_total_swapped(h: spec_fn(int, int) -> Gaussian, n: int, m: int)
    ensures
        total(|i: int| total(|j: int| h(i, j), m), n) == total(
            |j: int| total(|i: int| h(i, j), n),
            m,
        ),
    decreases n,
{
    let rows = |i: int| total(|j: int| h(i, j), m);
    let cols = |j: int| total(|i: int| h(i, j), n);
    if n <= 0 {
        lemma_total_nothing(cols, m);
    } else {
        lemma_total_swapped(h, n - 1, m);
        let before = |j: int| total(|i: int| h(i, j), n - 1);
        let last = |j: int| h(n - 1, j);
        lemma_total_added(before, last, m);
        lemma_total_same(cols, |j: int| gaussian_sum(before(j), last(j)), m);
        lemma_total_same(last, |j: int| h(n - 1, j), m);
        lemma_total_same(|i: int| total(|j: int| h(i, j), m), rows, n - 1);
    }
}

proof fn lemma_total_nothing(f: spec_fn(int) -> Gaussian, m: int)
    requires
        forall|j: int| 0 <= j < m ==> #[trigger] f(j) == nothing(),
    ensures
        total(f, m) == nothing(),
    decreases m,
{
    if m > 0 {
        lemma_total_nothing(f, m - 1);
        assert(f(m - 1) == nothing());
    }
}

/// Four numbers times four others, added up.
pub open spec fn mixed(g: spec_fn(int) -> Gaussian, x: spec_fn(int) -> Gaussian) -> Gaussian {
    total(|c: int| gaussian_product(g(c), x(c)), 4)
}

/// Whether sums, products and opposites are read exactly, integers as themselves, and entries of
/// gates that are negligible as zero.
pub open spec fn is_exact(val: spec_fn(Complex64) -> Gaussian) -> bool {
    &&& forall|x: Complex64, y: Complex64|
        val(#[trigger] complex_add(x, y)) == gaussian_sum(val(x), val(y))
    &&& forall|x: Complex64, y: Complex64|
        val(#[trigger] complex_mul(x, y)) == gaussian_product(val(x), val(y))
    &&& forall|x: Complex64|
        val(#[trigger] complex_neg(x)) == (Gaussian { re: -val(x).re, im: -val(x).im })
    &&& forall|re: int, im: int| val(#[trigger] complex_of(re, im)) == (Gaussian { re, im })
    &&& forall|x: Complex64| #[trigger] is_negligible(x, 14) ==> val(x) == nothing()
}

/// What a pair of tensors holds, read exactly.
pub open spec fn block(
    val: spec_fn(Complex64) -> Gaussian,
    left: Tensor,
    right: Tensor,
    l: int,
    s0: int,
    s1: int,
    r: int,
) -> Gaussian {
    val(pair_amplitude(left, right, l, s0, s1, r))
}

proof fn lemma_pair_sum(
    val: spec_fn(Complex64) -> Gaussian,
    left: Tensor,
    right: Tensor,
    l: int,
    s0: int,
    s1: int,
    r: int,
    count: int,
)
    requires
        is_exact(val),
    ensures
        val(pair_sum(left, right, l, s0, s1, r, count)) == total(
            |b: int| gaussian_product(val(left.at(l, s0, b)), val(right.at(b, s1, r))),
            count,
        ),
    decreases count,
{
    assert(val(complex_of(0, 0)) == nothing());
    if count > 0 {
        lemma_pair_sum(val, left, right, l, s0, s1, r, count - 1);
        let b = count - 1;
        let term = complex_mul(left.at(l, s0, b), right.at(b, s1, r));
        assert(val(complex_add(pair_sum(left, right, l, s0, s1, r, b), term)) == gaussian_sum(
            val(pair_sum(left, right, l, s0, s1, r, b)),
            val(term),
        ));
    }
}

pub proof fn lemma_carry_sum(
    val: spec_fn(Complex64) -> Gaussian,
    work: Seq<Complex64>,
    t: Tensor,
    state: int,
    r: int,
    count: int,
)
    requires
        is_exact(val),
    ensures
        val(carry_sum(work, t, state, r, count)) == total(
            |l: int| gaussian_product(val(work[l]), val(t.at(l, state, r))),
            count,
        ),
    decreases count,
{
    assert(val(complex_of(0, 0)) == nothing());
    if count > 0 {
        lemma_carry_sum(val, work, t, state, r, count - 1);
        let l = count - 1;
        let term = complex_mul(work[l], t.at(l, state, r));
        assert(val(complex_add(carry_sum(work, t, state, r, l), term)) == gaussian_sum(
            val(carry_sum(work, t, state, r, l)),
            val(term),
        ));
    }
}

/// What is carried through one tensor.
pub open spec fn carried_on(work: Seq<Complex64>, t: Tensor, state: int) -> Seq<Complex64> {
    Seq::new(t.right as nat, |r: int| carry_sum(work, t, state, r, t.left as int))
}

/// Carrying numbers through two tensors is carrying them through what the pair holds.
proof fn lemma_two_tensors(
    val: spec_fn(Complex64) -> Gaussian,
    work: Seq<Complex64>,
    left: Tensor,
    right: Tensor,
    s0: int,
    s1: int,
    r: int,
)
    requires
        is_exact(val),
        left.right == right.left,
    ensures
        val(carry_sum(carried_on(work, left, s0), right, s1, r, right.left as int)) == total(
            |l: int| gaussian_product(val(work[l]), block(val, left, right, l, s0, s1, r)),
            left.left as int,
        ),
{
    let bonds = left.right as int;
    let outer = left.left as int;
    let middle = carried_on(work, left, s0);
    let h = |b: int, l: int|
        gaussian_product(
            val(work[l]),
            gaussian_product(val(left.at(l, s0, b)), val(right.at(b, s1, r))),
        );
    lemma_carry_sum(val, middle, right, s1, r, right.left as int);
    let first = |b: int| gaussian_product(val(middle[b]), val(right.at(b, s1, r)));
    let second = |b: int| total(|l: int| h(b, l), outer);
    assert forall|b: int| 0 <= b < bonds implies #[trigger] first(b) == second(b) by {
        let inner = |l: int| gaussian_product(val(work[l]), val(left.at(l, s0, b)));
        lemma_carry_sum(val, work, left, s0, b, outer);
        assert(val(middle[b]) == total(inner, outer));
        lemma_total_scaled(val(right.at(b, s1, r)), inner, outer);
        let scaled = |l: int| gaussian_product(inner(l), val(right.at(b, s1, r)));
        let wanted = |l: int| h(b, l);
        assert forall|l: int| 0 <= l < outer implies #[trigger] scaled(l) == wanted(l) by {
            lemma_gaussian_ring(val(work[l]), val(left.at(l, s0, b)), val(right.at(b, s1, r)));
        }
        lemma_total_same(scaled, wanted, outer);
    }
    lemma_total_same(first, second, bonds);
    lemma_total_swapped(h, bonds, outer);
    let by_left = |l: int| total(|b: int| h(b, l), bonds);
    let wanted = |l: int|
        gaussian_product(val(work[l]), block(val, left, right, l, s0, s1, r));
    assert forall|l: int| 0 <= l < outer implies #[trigger] by_left(l) == wanted(l) by {
        let terms = |b: int| gaussian_product(val(left.at(l, s0, b)), val(right.at(b, s1, r)));
        lemma_pair_sum(val, left, right, l, s0, s1, r, bonds);
        lemma_total_scaled(val(work[l]), terms, bonds);
        lemma_total_same(
            |b: int| gaussian_product(val(work[l]), terms(b)),
            |b: int| h(b, l),
            bonds,
        );
    }
    lemma_total_same(by_left, wanted, outer);
}

/// Numbers that are mixed from others stay mixed from them when all are carried on.
proof fn lemma_mixed_total(
    g: spec_fn(int) -> Gaussian,
    x: spec_fn(int, int) -> Gaussian,
    t: spec_fn(int) -> Gaussian,
    n: int,
)
    ensures
        total(|l: int| gaussian_product(mixed(g, |c: int| x(c, l)), t(l)), n) == mixed(
            g,
            |c: int| total(|l: int| gaussian_product(x(c, l), t(l)), n),
        ),
{
    let h = |l: int, c: int| gaussian_product(g(c), gaussian_product(x(c, l), t(l)));
    let first = |l: int| gaussian_product(mixed(g, |c: int| x(c, l)), t(l));
    let second = |l: int| total(|c: int| h(l, c), 4);
    assert forall|l: int| 0 <= l < n implies #[trigger] first(l) == second(l) by {
        let terms = |c: int| gaussian_product(g(c), x(c, l));
        lemma_total_same(
            |c: int| gaussian_product(g(c), (|c: int| x(c, l))(c)),
            terms,
            4,
        );
        lemma_total_scaled(t(l), terms, 4);
        let scaled = |c: int| gaussian_product(terms(c), t(l));
        let wanted = |c: int| h(l, c);
        assert forall|c: int| 0 <= c < 4 implies #[trigger] scaled(c) == wanted(c) by {
            lemma_gaussian_ring(g(c), x(c, l), t(l));
        }
        lemma_total_same(scaled, wanted, 4);
    }
    lemma_total_same(first, second, n);
    lemma_total_swapped(h, n, 4);
    let by_c = |c: int| total(|l: int| h(l, c), n);
    let sums = |c: int| total(|l: int| gaussian_product(x(c, l), t(l)), n);
    let wanted = |c: int| gaussian_product(g(c), sums(c));
    assert forall|c: int| 0 <= c < 4 implies #[trigger] by_c(c) == wanted(c) by {
        let terms = |l: int| gaussian_product(x(c, l), t(l));
        lemma_total_scaled(g(c), terms, n);
        lemma_total_same(
            |l: int| gaussian_product(g(c), terms(l)),
            |l: int| h(l, c),
            n,
        );
    }
    lemma_total_same(by_c, wanted, 4);
}

/// The index with bit `q` given a value.
pub open spec fn with_value(k: usize, q: usize, value: int) -> usize {
    if value == 1 {
        with_bit(k, q)
    } else {
        clear_bit(k, q)
    }
}

/// The index with two bits given the values in `c`: the higher one for `a`, the lower one for
/// `b`.
pub open spec fn with_values(k: usize, a: usize, b: usize, c: int) -> usize {
    with_value(with_value(k, a, c / 2), b, c % 2)
}

proof fn lemma_inverted_bit(q: usize, p: usize)
    by (bit_vector)
    requires
        p < usize::BITS,
        q < usize::BITS,
    ensures
        (!(1usize << q) & (1usize << p) != 0) == (p != q),
{
}

pub proof fn lemma_with_value(k: usize, q: usize, value: int, p: usize)
    requires
        q < usize::BITS,
        p < usize::BITS,
    ensures
        bit_set(with_value(k, q, value), p) == if p == q {
            value == 1
        } else {
            bit_set(k, p)
        },
{
    lemma_bit_ops(k, bit_mask(q), p);
    lemma_bit_ops(k, !bit_mask(q), p);
    lemma_mask_bit(q, p);
    lemma_inverted_bit(q, p);
}

proof fn lemma_with_values(k: usize, a: usize, b: usize, c: int, p: usize)
    requires
        a < usize::BITS,
        b < usize::BITS,
        a != b,
        0 <= c < 4,
        p < usize::BITS,
    ensures
        bit_set(with_values(k, a, b, c), p) == if p == a {
            c / 2 == 1
        } else if p == b {
            c % 2 == 1
        } else {
            bit_set(k, p)
        },
{
    lemma_with_value(k, a, c / 2, p);
    lemma_with_value(with_value(k, a, c / 2), b, c % 2, p);
}

/// Whether the tensors of a line share their bonds.
pub open spec fn shares_bonds(tensors: Seq<Tensor>) -> bool {
    &&& tensors.len() > 0 ==> tensors[0].left == 1
    &&& forall|i: int, j: int|
        0 <= i && j == i + 1 && j < tensors.len() ==> (#[trigger] tensors[i]).right == (
        #[trigger] tensors[j]).left
}

/// Whether labels are all different and fit the bits of an index.
pub open spec fn are_labels(order: Seq<usize>, n: int) -> bool {
    &&& order.len() == n
    &&& forall|i: int| 0 <= i < n ==> #[trigger] order[i] < usize::BITS
    &&& forall|i: int, j: int| 0 <= i < j < n ==> #[trigger] order[i] != #[trigger] order[j]
}

proof fn lemma_same_carried(
    a: Seq<Tensor>,
    b: Seq<Tensor>,
    order: Seq<usize>,
    other_order: Seq<usize>,
    k: usize,
    other: usize,
    count: int,
)
    requires
        forall|i: int| 0 <= i < count ==> #[trigger] a[i] == b[i],
        forall|i: int|
            0 <= i < count ==> bit_set(k, #[trigger] order[i]) == bit_set(other, other_order[i]),
    ensures
        carried(a, order, k, count) == carried(b, other_order, other, count),
    decreases count,
{
    if count > 0 {
        lemma_same_carried(a, b, order, other_order, k, other, count - 1);
        assert(a[count - 1] == b[count - 1]);
        assert(bit_set(k, order[count - 1]) == bit_set(other, other_order[count - 1]));
        assert(carried(a, order, k, count) =~= carried(b, other_order, other, count));
    }
}

/// Whether a pair of tensors holds what numbers `g` make of what another pair holds.
pub open spec fn is_mixed_pair(
    val: spec_fn(Complex64) -> Gaussian,
    g: spec_fn(int, int) -> Gaussian,
    left: Tensor,
    right: Tensor,
    new_left: Tensor,
    new_right: Tensor,
) -> bool {
    &&& new_left.left == left.left
    &&& new_right.right == right.right
    &&& new_left.right == new_right.left
    &&& forall|l: int, s0: int, s1: int, r: int|
        #![trigger block(val, new_left, new_right, l, s0, s1, r)]
        0 <= l < left.left && 0 <= s0 < 2 && 0 <= s1 < 2 && 0 <= r < right.right ==> block(
            val,
            new_left,
            new_right,
            l,
            s0,
            s1,
            r,
        ) == mixed(
            |c: int| g(2 * s0 + s1, c),
            |c: int| block(val, left, right, l, c / 2, c % 2, r),
        )
}

proof fn lemma_mixed_carried(
    val: spec_fn(Complex64) -> Gaussian,
    g: spec_fn(int, int) -> Gaussian,
    tensors: Seq<Tensor>,
    at: int,
    new_left: Tensor,
    new_right: Tensor,
    order: Seq<usize>,
    k: usize,
    count: int,
    r: int,
)
    requires
        is_exact(val),
        shares_bonds(tensors),
        are_labels(order, tensors.len() as int),
        0 <= at,
        at + 2 <= count <= tensors.len(),
        is_mixed_pair(val, g, tensors[at], tensors[at + 1], new_left, new_right),
        0 <= r < tensors[count - 1].right,
    ensures
        val(carried(pair_replaced(tensors, at, new_left, new_right), order, k, count)[r]) == mixed(
            |c: int|
                g(
                    2 * bit_value(bit_set(k, order[at])) + bit_value(bit_set(k, order[at + 1])),
                    c,
                ),
            |c: int|
                val(
                    carried(tensors, order, with_values(k, order[at], order[at + 1], c), count)[r],
                ),
        ),
    decreases count,
{
    let new = pair_replaced(tensors, at, new_left, new_right);
    let (a, b) = (order[at], order[at + 1]);
    let s0 = bit_value(bit_set(k, a));
    let s1 = bit_value(bit_set(k, b));
    let row = |c: int| g(2 * s0 + s1, c);
    let own = |c: int| with_values(k, a, b, c);
    assert(a != b && a < usize::BITS && b < usize::BITS);
    assert(new.len() == tensors.len());
    let goal = |c: int| val(carried(tensors, order, own(c), count)[r]);
    assert forall|c: int, i: int|
        0 <= c < 4 && 0 <= i < tensors.len() && i != at && i != at + 1 implies bit_set(
        k,
        order[i],
    ) == #[trigger] bit_set(own(c), order[i]) by {
        assert(order[i] != a && order[i] != b) by {
            if i < at {
                assert(order[i] != order[at] && order[i] != order[at + 1]);
            } else {
                assert(order[at] != order[i] && order[at + 1] != order[i]);
            }
        }
        lemma_with_values(k, a, b, c, order[i]);
    }
    if count == at + 2 {
        let work = carried(tensors, order, k, at);
        let (left, right) = (tensors[at], tensors[at + 1]);
        let outer = left.left as int;
        assert(left.right == right.left);
        assert forall|i: int| 0 <= i < at implies #[trigger] new[i] == tensors[i] by {}
        lemma_same_carried(new, tensors, order, order, k, k, at);
        assert(carried(new, order, k, at + 1) =~= carried_on(work, new_left, s0));
        assert(new[at] == new_left && new[at + 1] == new_right);
        assert(carried(new, order, k, count)[r] == carry_sum(
            carried_on(work, new_left, s0),
            new_right,
            s1,
            r,
            new_right.left as int,
        ));
        lemma_two_tensors(val, work, new_left, new_right, s0, s1, r);
        let x = |c: int, l: int| block(val, left, right, l, c / 2, c % 2, r);
        let t = |l: int| val(work[l]);
        let first = |l: int|
            gaussian_product(val(work[l]), block(val, new_left, new_right, l, s0, s1, r));
        let second = |l: int| gaussian_product(mixed(row, |c: int| x(c, l)), t(l));
        assert forall|l: int| 0 <= l < outer implies #[trigger] first(l) == second(l) by {
            assert(block(val, new_left, new_right, l, s0, s1, r) == mixed(
                |c: int| g(2 * s0 + s1, c),
                |c: int| block(val, left, right, l, c / 2, c % 2, r),
            ));
            lemma_mixed_same(
                |c: int| g(2 * s0 + s1, c),
                row,
                |c: int| block(val, left, right, l, c / 2, c % 2, r),
                |c: int| x(c, l),
            );
            lemma_commutes(val(work[l]), block(val, new_left, new_right, l, s0, s1, r));
        }
        lemma_total_same(first, second, outer);
        lemma_mixed_total(row, x, t, outer);
        let sums = |c: int| total(|l: int| gaussian_product(x(c, l), t(l)), outer);
        assert forall|c: int| 0 <= c < 4 implies #[trigger] sums(c) == goal(c) by {
            let kc = own(c);
            lemma_with_values(k, a, b, c, a);
            lemma_with_values(k, a, b, c, b);
            assert forall|i: int| 0 <= i < at implies bit_set(k, #[trigger] order[i]) == bit_set(
                kc,
                order[i],
            ) by {
                assert(bit_set(k, order[i]) == bit_set(own(c), order[i]));
            }
            lemma_same_carried(tensors, tensors, order, order, k, kc, at);
            assert(bit_value(bit_set(kc, a)) == c / 2);
            assert(bit_value(bit_set(kc, b)) == c % 2);
            assert(carried(tensors, order, kc, at + 1) =~= carried_on(work, left, c / 2));
            assert(carried(tensors, order, kc, count)[r] == carry_sum(
                carried_on(work, left, c / 2),
                right,
                c % 2,
                r,
                right.left as int,
            ));
            lemma_two_tensors(val, work, left, right, c / 2, c % 2, r);
            let one = |l: int|
                gaussian_product(val(work[l]), block(val, left, right, l, c / 2, c % 2, r));
            let two = |l: int| gaussian_product(x(c, l), t(l));
            assert forall|l: int| 0 <= l < outer implies #[trigger] one(l) == two(l) by {
                lemma_commutes(val(work[l]), block(val, left, right, l, c / 2, c % 2, r));
            }
            lemma_total_same(one, two, outer);
        }
        lemma_mixed_same(row, row, sums, goal);
    } else {
        let last = count - 1;
        let tensor = tensors[last];
        let width = tensor.left as int;
        let state = bit_value(bit_set(k, order[last]));
        assert(tensors[last - 1].right == tensors[last].left);
        assert(new[last] == tensor);
        let x = |c: int, l: int| val(carried(tensors, order, own(c), last)[l]);
        let t = |l: int| val(tensor.at(l, state, r));
        let work = carried(new, order, k, last);
        assert(carried(new, order, k, count)[r] == carry_sum(work, tensor, state, r, width));
        lemma_carry_sum(val, work, tensor, state, r, width);
        let first = |l: int| gaussian_product(val(work[l]), val(tensor.at(l, state, r)));
        let second = |l: int| gaussian_product(mixed(row, |c: int| x(c, l)), t(l));
        assert forall|l: int| 0 <= l < width implies #[trigger] first(l) == second(l) by {
            lemma_mixed_carried(
                val,
                g,
                tensors,
                at,
                new_left,
                new_right,
                order,
                k,
                last,
                l,
            );
            lemma_mixed_same(
                |c: int|
                    g(
                        2 * bit_value(bit_set(k, order[at])) + bit_value(
                            bit_set(k, order[at + 1]),
                        ),
                        c,
                    ),
                row,
                |c: int|
                    val(
                        carried(
                            tensors,
                            order,
                            with_values(k, order[at], order[at + 1], c),
                            last,
                        )[l],
                    ),
                |c: int| x(c, l),
            );
        }
        lemma_total_same(first, second, width);
        lemma_mixed_total(row, x, t, width);
        let sums = |c: int| total(|l: int| gaussian_product(x(c, l), t(l)), width);
        assert forall|c: int| 0 <= c < 4 implies #[trigger] sums(c) == goal(c) by {
            let kc = own(c);
            assert(bit_set(k, order[last]) == bit_set(own(c), order[last]));
            let before = carried(tensors, order, kc, last);
            assert(carried(tensors, order, kc, count)[r] == carry_sum(
                before,
                tensor,
                state,
                r,
                width,
            ));
            lemma_carry_sum(val, before, tensor, state, r, width);
            lemma_total_same(
                |l: int| gaussian_product(val(before[l]), val(tensor.at(l, state, r))),
                |l: int| gaussian_product(x(c, l), t(l)),
                width,
            );
        }
        lemma_mixed_same(row, row, sums, goal);
    }
    lemma_mixed_same(
        row,
        |c: int|
            g(
                2 * bit_value(bit_set(k, order[at])) + bit_value(bit_set(k, order[at + 1])),
                c,
            ),
        goal,
        |c: int|
            val(carried(tensors, order, with_values(k, order[at], order[at + 1], c), count)[r]),
    );
}

proof fn lemma_mixed_same(
    g: spec_fn(int) -> Gaussian,
    g2: spec_fn(int) -> Gaussian,
    x: spec_fn(int) -> Gaussian,
    x2: spec_fn(int) -> Gaussian,
)
    requires
        forall|c: int| 0 <= c < 4 ==> #[trigger] g(c) == g2(c),
        forall|c: int| 0 <= c < 4 ==> #[trigger] x(c) == x2(c),
    ensures
        mixed(g, x) == mixed(g2, x2),
{
    let first = |c: int| gaussian_product(g(c), x(c));
    let second = |c: int| gaussian_product(g2(c), x2(c));
    assert forall|c: int| 0 <= c < 4 implies #[trigger] first(c) == second(c) by {
        assert(g(c) == g2(c) && x(c) == x2(c));
    }
    lemma_total_same(first, second, 4);
}

/// Whether two tensors hold, when multiplied, what was split into them.
pub open spec fn multiplies_back(
    val: spec_fn(Complex64) -> Gaussian,
    theta: Tensor,
    left: Tensor,
    right: Tensor,
) -> bool {
    forall|l: int, s0: int, s1: int, r: int|
        #![trigger block(val, left, right, l, s0, s1, r)]
        0 <= l < left.left && 0 <= s0 < 2 && 0 <= s1 < 2 && 0 <= r < right.right ==> block(
            val,
            left,
            right,
            l,
            s0,
            s1,
            r,
        ) == val(theta.at(l * 2 + s0, s1, r))
}

/// Whether four amplitudes are the products of those of two tensors without bonds.
pub open spec fn multiplies_to(
    val: spec_fn(Complex64) -> Gaussian,
    output: Seq<Complex64>,
    left: Tensor,
    right: Tensor,
) -> bool {
    forall|s0: int, s1: int|
        #![trigger left.at(0, s0, 0), right.at(0, s1, 0)]
        0 <= s0 < 2 && 0 <= s1 < 2 ==> val(output[2 * s0 + s1]) == gaussian_product(
            val(left.at(0, s0, 0)),
            val(right.at(0, s1, 0)),
        )
}

/// Whether nothing is lost when a pair is split: neither by leaving out singular values nor by
/// rounding.
pub open spec fn loses_nothing(
    val: spec_fn(Complex64) -> Gaussian,
    threshold: Complex64,
    max_bond: Option<usize>,
) -> bool {
    &&& forall|theta: Tensor, left: Tensor, right: Tensor, split: bool, alone: bool|
        #[trigger] finishes(
            theta,
            threshold,
            max_bond,
            alone,
            Ok::<SplitPair, GateError>((left, right, split)),
        ) ==> multiplies_back(val, theta, left, right)
    &&& forall|output: Seq<Complex64>, left: Tensor, right: Tensor|
        #[trigger] splits_into_tensors(output, left, right) ==> multiplies_to(
            val,
            output,
            left,
            right,
        )
}

/// What a gate makes of four amplitudes, read exactly.
proof fn lemma_made_exactly(
    val: spec_fn(Complex64) -> Gaussian,
    gate: Matrix4,
    first_left: bool,
    input: Seq<Complex64>,
    p: int,
    value: Complex64,
)
    requires
        is_exact(val),
        is_made_by(gate, first_left, input, p, value),
    ensures
        val(value) == mixed(
            |c: int| val(own_entry(gate, first_left, p, c)),
            |c: int| val(input[c]),
        ),
{
    let g = |c: int| val(own_entry(gate, first_left, p, c));
    let x = |c: int| val(input[c]);
    let term = |c: int| gaussian_product(g(c), x(c));
    let t = |c: int| own_term(gate, first_left, input, p, c);
    assert(val(t(0)) == term(0) && val(t(1)) == term(1) && val(t(2)) == term(2) && val(t(3))
        == term(3));
    assert(val(complex_of(0, 0)) == nothing());
    reveal_with_fuel(total, 5);
    assert(mixed(g, x) == gaussian_sum(
        gaussian_sum(gaussian_sum(gaussian_sum(nothing(), term(0)), term(1)), term(2)),
        term(3),
    ));
    let s1 = complex_add(t(0), t(1));
    let s2 = complex_add(s1, t(2));
    let s3 = complex_add(s2, t(3));
    let z0 = complex_add(complex_zero(), t(0));
    let z1 = complex_add(z0, t(1));
    let z2 = complex_add(z1, t(2));
    let z3 = complex_add(z2, t(3));
    assert(val(s3) == gaussian_sum(val(s2), val(t(3))));
    assert(val(s2) == gaussian_sum(val(s1), val(t(2))));
    assert(val(s1) == gaussian_sum(val(t(0)), val(t(1))));
    assert(val(z3) == gaussian_sum(val(z2), val(t(3))));
    assert(val(z2) == gaussian_sum(val(z1), val(t(2))));
    assert(val(z1) == gaussian_sum(val(z0), val(t(1))));
    assert(val(z0) == gaussian_sum(val(complex_zero()), val(t(0))));
    if value != s3 && value != z3 {
        let (c, factor) = choose|c: int, factor: Complex64|
            {
                &&& 0 <= c < 4
                &&& value == #[trigger] complex_mul(factor, input[c])
                &&& stands_for(factor, own_entry(gate, first_left, p, c))
                &&& forall|other: int|
                    0 <= other < 4 && other != c ==> may_be_left_out(
                        #[trigger] own_entry(gate, first_left, p, other),
                    )
            };
        assert(val(factor) == g(c)) by {
            assert(val(complex_neg(complex_of(0, 1))) == val(complex_of(0, -1)));
        }
        assert(val(value) == term(c));
        assert forall|other: int| 0 <= other < 4 && other != c implies #[trigger] term(other)
            == nothing() by {
            let entry = own_entry(gate, first_left, p, other);
            assert(may_be_left_out(entry));
            assert(val(entry) == nothing());
            let y = x(other);
            assert(0 * y.re == 0 && 0 * y.im == 0) by (nonlinear_arith);
        }
        assert(c == 0 || term(0) == nothing());
        assert(c == 1 || term(1) == nothing());
        assert(c == 2 || term(2) == nothing());
        assert(c == 3 || term(3) == nothing());
    }
}

/// The entries of a gate for two neighbours, read exactly.
pub open spec fn entries_of(
    val: spec_fn(Complex64) -> Gaussian,
    gate: Matrix4,
    first_left: bool,
) -> spec_fn(int, int) -> Gaussian {
    |p: int, c: int| val(own_entry(gate, first_left, p, c))
}

proof fn lemma_split_dimensions(
    theta: Tensor,
    threshold: Complex64,
    max_bond: Option<usize>,
    alone: bool,
    left: Tensor,
    right: Tensor,
    split: bool,
)
    requires
        finishes(
            theta,
            threshold,
            max_bond,
            alone,
            Ok::<SplitPair, GateError>((left, right, split)),
        ),
    ensures
        left.left * 2 == theta.left,
        right.right == theta.right,
        left.right == right.left,
{
}

proof fn lemma_gate_mixes_pair(
    val: spec_fn(Complex64) -> Gaussian,
    mid: Mps,
    at: int,
    gate: Matrix4,
    first_left: bool,
    left: Tensor,
    right: Tensor,
)
    requires
        is_exact(val),
        loses_nothing(val, mid.truncation_threshold, mid.max_bond_dimension),
        is_gate_split(mid, at, gate, first_left, left, right),
        mid.tensors@[at].right == mid.tensors@[at + 1].left,
    ensures
        is_mixed_pair(
            val,
            entries_of(val, gate, first_left),
            mid.tensors@[at],
            mid.tensors@[at + 1],
            left,
            right,
        ),
{
    let (a, b) = (mid.tensors@[at], mid.tensors@[at + 1]);
    let g = entries_of(val, gate, first_left);
    if exists|theta: Tensor, split: bool, alone: bool| #[trigger]
        finishes(
            theta,
            mid.truncation_threshold,
            mid.max_bond_dimension,
            alone,
            Ok::<SplitPair, GateError>((left, right, split)),
        ) && is_gate_on_pair(a, b, gate, first_left, theta) {
        let (theta, split, alone) = choose|theta: Tensor, split: bool, alone: bool| #[trigger]
            finishes(
                theta,
                mid.truncation_threshold,
                mid.max_bond_dimension,
                alone,
                Ok::<SplitPair, GateError>((left, right, split)),
            ) && is_gate_on_pair(a, b, gate, first_left, theta);
        lemma_split_dimensions(
            theta,
            mid.truncation_threshold,
            mid.max_bond_dimension,
            alone,
            left,
            right,
            split,
        );
        assert(multiplies_back(val, theta, left, right));
        assert forall|l: int, s0: int, s1: int, r: int|
            #![trigger block(val, left, right, l, s0, s1, r)]
            0 <= l < a.left && 0 <= s0 < 2 && 0 <= s1 < 2 && 0 <= r < b.right implies block(
            val,
            left,
            right,
            l,
            s0,
            s1,
            r,
        ) == mixed(
            |c: int| g(2 * s0 + s1, c),
            |c: int| block(val, a, b, l, c / 2, c % 2, r),
        ) by {
            let value = theta.at(l * 2 + s0, s1, r);
            let input = pair_input(a, b, l, r);
            let (l1, t0, t1, r1) = (l as usize, s0 as usize, s1 as usize, r as usize);
            assert(theta.at(l1 * 2 + t0, t1 as int, r1 as int) == value);
            assert(is_made_by(gate, first_left, input, 2 * s0 + s1, value));
            lemma_made_exactly(val, gate, first_left, input, 2 * s0 + s1, value);
            lemma_mixed_same(
                |c: int| val(own_entry(gate, first_left, 2 * s0 + s1, c)),
                |c: int| g(2 * s0 + s1, c),
                |c: int| val(input[c]),
                |c: int| block(val, a, b, l, c / 2, c % 2, r),
            );
        }
    } else {
        let output = choose|output: Seq<Complex64>| #[trigger]
            splits_into_tensors(output, left, right) && output.len() == 4 && forall|p: int|
                0 <= p < 4 ==> is_made_by(
                    gate,
                    first_left,
                    product_input(a, b),
                    p,
                    #[trigger] output[p],
                );
        assert(multiplies_to(val, output, left, right));
        assert forall|l: int, s0: int, s1: int, r: int|
            #![trigger block(val, left, right, l, s0, s1, r)]
            0 <= l < a.left && 0 <= s0 < 2 && 0 <= s1 < 2 && 0 <= r < b.right implies block(
            val,
            left,
            right,
            l,
            s0,
            s1,
            r,
        ) == mixed(
            |c: int| g(2 * s0 + s1, c),
            |c: int| block(val, a, b, l, c / 2, c % 2, r),
        ) by {
            let p = 2 * s0 + s1;
            let input = product_input(a, b);
            lemma_single_block(val, left, right, s0, s1);
            assert(val(output[2 * s0 + s1]) == gaussian_product(
                val(left.at(0, s0, 0)),
                val(right.at(0, s1, 0)),
            ));
            assert(is_made_by(gate, first_left, input, p, output[p]));
            lemma_made_exactly(val, gate, first_left, input, p, output[p]);
            lemma_single_block(val, a, b, 0, 0);
            lemma_single_block(val, a, b, 0, 1);
            lemma_single_block(val, a, b, 1, 0);
            lemma_single_block(val, a, b, 1, 1);
            let x = |c: int| block(val, a, b, l, c / 2, c % 2, r);
            assert(x(0) == val(input[0]) && x(1) == val(input[1]) && x(2) == val(input[2]) && x(3)
                == val(input[3]));
            lemma_mixed_same(
                |c: int| val(own_entry(gate, first_left, p, c)),
                |c: int| g(2 * s0 + s1, c),
                |c: int| val(input[c]),
                x,
            );
        }
    }
}

/// What a pair without bonds holds.
proof fn lemma_single_block(
    val: spec_fn(Complex64) -> Gaussian,
    left: Tensor,
    right: Tensor,
    s0: int,
    s1: int,
)
    requires
        is_exact(val),
        left.right == 1,
    ensures
        block(val, left, right, 0, s0, s1, 0) == gaussian_product(
            val(left.at(0, s0, 0)),
            val(right.at(0, s1, 0)),
        ),
        block(val, left, right, 0, s0, s1, 0) == val(
            complex_mul(left.at(0, s0, 0), right.at(0, s1, 0)),
        ),
{
    lemma_pair_sum(val, left, right, 0, s0, s1, 0, 1);
    reveal_with_fuel(total, 2);
}

/// Whether an amplitude reads as what numbers make of four others.
pub open spec fn mixes_amplitudes(
    val: spec_fn(Complex64) -> Gaussian,
    g: spec_fn(int) -> Gaussian,
    tensors: Seq<Tensor>,
    order: Seq<usize>,
    a: usize,
    b: usize,
    k: usize,
    value: Complex64,
) -> bool {
    val(value) == mixed(
        g,
        |c: int| val(amplitude(tensors, order, with_values(k, a, b, c))),
    )
}

/// A gate on two neighbours makes of the amplitudes what its matrix says, whatever the labels of
/// the positions are. Bonds are still shared afterwards.
proof fn lemma_gate_mixes_amplitudes(
    val: spec_fn(Complex64) -> Gaussian,
    mid: Mps,
    at: int,
    gate: Matrix4,
    first_left: bool,
    there: Mps,
    order: Seq<usize>,
    k: usize,
)
    requires
        is_exact(val),
        loses_nothing(val, mid.truncation_threshold, mid.max_bond_dimension),
        shares_bonds(mid.tensors@),
        mid.tensors@[mid.tensors@.len() - 1].right == 1,
        are_labels(order, mid.tensors@.len() as int),
        0 <= at,
        at + 1 < mid.tensors@.len(),
        acts_on_pair(mid, at, gate, first_left, there),
    ensures
        there.tensors@.len() == mid.tensors@.len(),
        shares_bonds(there.tensors@),
        there.tensors@[there.tensors@.len() - 1].right == 1,
        mixes_amplitudes(
            val,
            |c: int|
                val(
                    own_entry(
                        gate,
                        first_left,
                        2 * bit_value(bit_set(k, order[at])) + bit_value(bit_set(k, order[at + 1])),
                        c,
                    ),
                ),
            mid.tensors@,
            order,
            order[at],
            order[at + 1],
            k,
            amplitude(there.tensors@, order, k),
        ),
{
    let (left, right) = choose|left: Tensor, right: Tensor| #[trigger]
        is_gate_split(mid, at, gate, first_left, left, right) && there.tensors@ == pair_replaced(
            mid.tensors@,
            at,
            left,
            right,
        );
    let tensors = mid.tensors@;
    let n = tensors.len() as int;
    assert(tensors[at].right == tensors[at + 1].left);
    lemma_gate_mixes_pair(val, mid, at, gate, first_left, left, right);
    let g = entries_of(val, gate, first_left);
    lemma_mixed_carried(val, g, tensors, at, left, right, order, k, n, 0);
    let p = 2 * bit_value(bit_set(k, order[at])) + bit_value(bit_set(k, order[at + 1]));
    lemma_mixed_same(
        |c: int|
            g(2 * bit_value(bit_set(k, order[at])) + bit_value(bit_set(k, order[at + 1])), c),
        |c: int|
            val(
                own_entry(
                    gate,
                    first_left,
                    2 * bit_value(bit_set(k, order[at])) + bit_value(bit_set(k, order[at + 1])),
                    c,
                ),
            ),
        |c: int| val(carried(tensors, order, with_values(k, order[at], order[at + 1], c), n)[0]),
        |c: int| val(amplitude(tensors, order, with_values(k, order[at], order[at + 1], c))),
    );
    let new = there.tensors@;
    assert forall|i: int, j: int| 0 <= i && j == i + 1 && j < new.len() implies (
    #[trigger] new[i]).right == (#[trigger] new[j]).left by {
        assert(tensors[i].right == tensors[j].left);
    }
}

/// Whether a line can be swapped and acted on: bonds are shared, its end has none, and nothing is
/// lost by splitting.
pub open spec fn is_sound(val: spec_fn(Complex64) -> Gaussian, m: Mps) -> bool {
    &&& m.tensors@.len() > 0
    &&& shares_bonds(m.tensors@)
    &&& m.tensors@[m.tensors@.len() - 1].right == 1
    &&& loses_nothing(val, m.truncation_threshold, m.max_bond_dimension)
}

proof fn lemma_unit_mixed(g: spec_fn(int) -> Gaussian, x: spec_fn(int) -> Gaussian, j: int)
    requires
        0 <= j < 4,
        forall|c: int|
            0 <= c < 4 ==> #[trigger] g(c) == if c == j {
                Gaussian { re: 1, im: 0 }
            } else {
                nothing()
            },
    ensures
        mixed(g, x) == x(j),
{
    let term = |c: int| gaussian_product(g(c), x(c));
    assert forall|c: int| 0 <= c < 4 implies #[trigger] term(c) == if c == j {
        x(j)
    } else {
        nothing()
    } by {
        let y = x(c);
        assert(g(c) == if c == j {
            Gaussian { re: 1, im: 0 }
        } else {
            nothing()
        });
        assert(0 * y.re == 0 && 0 * y.im == 0 && 1 * y.re == y.re && 1 * y.im == y.im)
            by (nonlinear_arith);
    }
    assert(term(0) == term(0) && term(1) == term(1) && term(2) == term(2) && term(3) == term(3));
    reveal_with_fuel(total, 5);
}

proof fn lemma_labels_swapped(order: Seq<usize>, n: int, at: int)
    requires
        are_labels(order, n),
        0 <= at,
        at + 1 < n,
    ensures
        are_labels(neighbours_swapped(order, at), n),
{
    let new = neighbours_swapped(order, at);
    let old_place = |i: int|
        if i == at {
            at + 1
        } else if i == at + 1 {
            at
        } else {
            i
        };
    assert forall|i: int| 0 <= i < n implies #[trigger] new[i] == order[old_place(i)] by {}
    assert forall|i: int, j: int| 0 <= i < j < n implies #[trigger] new[i] != #[trigger] new[j] by {
        let (x, y) = (old_place(i), old_place(j));
        assert(x != y);
        if x < y {
            assert(order[x] != order[y]);
        } else {
            assert(order[y] != order[x]);
        }
    }
}

/// A swap of two neighbours leaves every amplitude alone when their labels are exchanged with
/// them.
proof fn lemma_swap_keeps_amplitudes(
    val: spec_fn(Complex64) -> Gaussian,
    mid: Mps,
    at: int,
    gate: Matrix4,
    there: Mps,
    order: Seq<usize>,
    k: usize,
)
    requires
        is_exact(val),
        is_sound(val, mid),
        are_labels(order, mid.tensors@.len() as int),
        0 <= at,
        at + 1 < mid.tensors@.len(),
        is_exchange_matrix(gate),
        acts_on_pair(mid, at, gate, true, there),
    ensures
        val(amplitude(there.tensors@, neighbours_swapped(order, at), k)) == val(
            amplitude(mid.tensors@, order, k),
        ),
{
    let n = mid.tensors@.len() as int;
    let new = neighbours_swapped(order, at);
    lemma_labels_swapped(order, n, at);
    lemma_gate_mixes_amplitudes(val, mid, at, gate, true, there, new, k);
    let (a, b) = (new[at], new[at + 1]);
    assert(a == order[at + 1] && b == order[at] && a != b) by {
        assert(order[at] != order[at + 1]);
    }
    let s0 = bit_value(bit_set(k, a));
    let s1 = bit_value(bit_set(k, b));
    let p = 2 * s0 + s1;
    let j = 2 * s1 + s0;
    let g = |c: int|
        val(
            own_entry(
                gate,
                true,
                2 * bit_value(bit_set(k, new[at])) + bit_value(bit_set(k, new[at + 1])),
                c,
            ),
        );
    let x = |c: int| val(amplitude(mid.tensors@, new, with_values(k, new[at], new[at + 1], c)));
    assert forall|c: int| 0 <= c < 4 implies #[trigger] g(c) == if c == j {
        Gaussian { re: 1, im: 0 }
    } else {
        nothing()
    } by {
        assert(p / 2 == s0 && p % 2 == s1);
        assert(own_entry(gate, true, p, c) == gate[2 * s0 + s1][2 * (c / 2) + c % 2]);
        assert(val(complex_of(1, 0)) == (Gaussian { re: 1, im: 0 }));
        assert(val(complex_of(0, 0)) == nothing());
    }
    lemma_unit_mixed(g, x, j);
    let kj = with_values(k, a, b, j);
    assert forall|i: int| 0 <= i < n implies bit_set(kj, #[trigger] new[i]) == bit_set(
        k,
        order[i],
    ) by {
        lemma_with_values(k, a, b, j, new[i]);
        assert(j / 2 == s1 && j % 2 == s0);
        if i != at && i != at + 1 {
            assert(new[i] != a && new[i] != b) by {
                if i < at {
                    assert(new[i] != new[at] && new[i] != new[at + 1]);
                } else {
                    assert(new[at] != new[i] && new[at + 1] != new[i]);
                }
            }
        }
    }
    lemma_same_carried(mid.tensors@, mid.tensors@, new, order, kj, k, n);
}

/// The labels after swaps downwards.
pub open spec fn moved_down(order: Seq<usize>, hi: int, lo: int) -> Seq<usize>
    decreases hi - lo,
{
    if hi <= lo {
        order
    } else {
        neighbours_swapped(moved_down(order, hi, lo + 1), lo)
    }
}

/// The labels after swaps upwards.
pub open spec fn moved_up(order: Seq<usize>, lo: int, hi: int) -> Seq<usize>
    decreases hi - lo,
{
    if hi <= lo {
        order
    } else {
        neighbours_swapped(moved_up(order, lo, hi - 1), hi - 1)
    }
}

proof fn lemma_moved_down(order: Seq<usize>, hi: int, lo: int)
    requires
        0 <= lo <= hi < order.len(),
    ensures
        moved_down(order, hi, lo) == Seq::new(
            order.len(),
            |i: int|
                if i == lo {
                    order[hi]
                } else if lo < i <= hi {
                    order[i - 1]
                } else {
                    order[i]
                },
        ),
    decreases hi - lo,
{
    if lo < hi {
        lemma_moved_down(order, hi, lo + 1);
    }
    assert(moved_down(order, hi, lo) =~= Seq::new(
        order.len(),
        |i: int|
            if i == lo {
                order[hi]
            } else if lo < i <= hi {
                order[i - 1]
            } else {
                order[i]
            },
    ));
}

proof fn lemma_moved_up(order: Seq<usize>, lo: int, hi: int)
    requires
        0 <= lo <= hi < order.len(),
    ensures
        moved_up(order, lo, hi) == Seq::new(
            order.len(),
            |i: int|
                if i == hi {
                    order[lo]
                } else if lo <= i < hi {
                    order[i + 1]
                } else {
                    order[i]
                },
        ),
    decreases hi - lo,
{
    if lo < hi {
        lemma_moved_up(order, lo, hi - 1);
    }
    assert(moved_up(order, lo, hi) =~= Seq::new(
        order.len(),
        |i: int|
            if i == hi {
                order[lo]
            } else if lo <= i < hi {
                order[i + 1]
            } else {
                order[i]
            },
    ));
}

proof fn lemma_down_and_up(order: Seq<usize>, hi: int, lo: int)
    requires
        0 <= lo <= hi < order.len(),
    ensures
        moved_up(moved_down(order, hi, lo), lo, hi) == order,
{
    lemma_moved_down(order, hi, lo);
    lemma_moved_up(moved_down(order, hi, lo), lo, hi);
    assert(moved_up(moved_down(order, hi, lo), lo, hi) =~= order);
}

/// One swap keeps a line sound, its settings, and its amplitudes under the labels that move with
/// the tensors.
proof fn lemma_one_swap(
    val: spec_fn(Complex64) -> Gaussian,
    moves: bool,
    before: Mps,
    position: int,
    after: Mps,
    order: Seq<usize>,
    k: usize,
)
    requires
        is_exact(val),
        is_sound(val, before),
        are_labels(order, before.tensors@.len() as int),
        before.position_to_logical@.len() == before.tensors@.len(),
        0 <= position,
        position + 1 < before.tensors@.len(),
        one_swap(moves, before, position, after, Ok::<(), GateError>(())),
    ensures
        is_sound(val, after),
        after.tensors@.len() == before.tensors@.len(),
        after.position_to_logical@ == if moves {
            neighbours_swapped(before.position_to_logical@, position)
        } else {
            before.position_to_logical@
        },
        are_labels(neighbours_swapped(order, position), after.tensors@.len() as int),
        val(amplitude(after.tensors@, neighbours_swapped(order, position), k)) == val(
            amplitude(before.tensors@, order, k),
        ),
{
    let (gate, there) = law_routing_swaps_exchange_neighbours(moves, before, position, after);
    lemma_swap_keeps_amplitudes(val, before, position, gate, there, order, k);
    lemma_gate_mixes_amplitudes(val, before, position, gate, true, there, order, k);
    lemma_labels_swapped(order, before.tensors@.len() as int, position);
    let swapped = if moves {
        neighbours_swapped(before.position_to_logical@, position)
    } else {
        before.position_to_logical@
    };
    lemma_swap_settings(moves, before, position, after);
    assert(after.position_to_logical@ =~= swapped);
}

proof fn lemma_swap_settings(moves: bool, before: Mps, position: int, after: Mps)
    requires
        0 <= position,
        position + 1 < before.position_to_logical@.len(),
        one_swap(moves, before, position, after, Ok::<(), GateError>(())),
    ensures
        after.truncation_threshold == before.truncation_threshold,
        after.max_bond_dimension == before.max_bond_dimension,
        after.position_to_logical@.len() == before.position_to_logical@.len(),
{
    if moves {
        let mid = choose|mid: Mps| #[trigger]
            physical_swap(before, position, mid, Ok::<(), GateError>(())) && same_settings(
                mid,
                after,
            ) && after.position_to_logical@ == neighbours_swapped(
                mid.position_to_logical@,
                position,
            );
        assert(mid.position_to_logical@ == before.position_to_logical@);
    }
}

proof fn lemma_swaps_down(
    val: spec_fn(Complex64) -> Gaussian,
    moves: bool,
    before: Mps,
    hi: int,
    lo: int,
    after: Mps,
    order: Seq<usize>,
    k: usize,
)
    requires
        is_exact(val),
        is_sound(val, before),
        are_labels(order, before.tensors@.len() as int),
        before.position_to_logical@.len() == before.tensors@.len(),
        0 <= lo <= hi < before.tensors@.len(),
        swaps_down(moves, before, hi, lo, after),
    ensures
        is_sound(val, after),
        after.tensors@.len() == before.tensors@.len(),
        after.position_to_logical@ == if moves {
            moved_down(before.position_to_logical@, hi, lo)
        } else {
            before.position_to_logical@
        },
        are_labels(moved_down(order, hi, lo), after.tensors@.len() as int),
        val(amplitude(after.tensors@, moved_down(order, hi, lo), k)) == val(
            amplitude(before.tensors@, order, k),
        ),
    decreases hi - lo,
{
    if lo < hi {
        let mid = choose|mid: Mps|
            swaps_down(moves, before, hi, lo + 1, mid) && #[trigger] one_swap(
                moves,
                mid,
                lo,
                after,
                Ok::<(), GateError>(()),
            );
        lemma_swaps_down(val, moves, before, hi, lo + 1, mid, order, k);
        if moves {
            lemma_moved_down(before.position_to_logical@, hi, lo + 1);
        }
        lemma_one_swap(val, moves, mid, lo, after, moved_down(order, hi, lo + 1), k);
    }
}

proof fn lemma_swaps_up(
    val: spec_fn(Complex64) -> Gaussian,
    moves: bool,
    before: Mps,
    lo: int,
    hi: int,
    after: Mps,
    order: Seq<usize>,
    k: usize,
)
    requires
        is_exact(val),
        is_sound(val, before),
        are_labels(order, before.tensors@.len() as int),
        before.position_to_logical@.len() == before.tensors@.len(),
        0 <= lo <= hi < before.tensors@.len(),
        swaps_up(moves, before, lo, hi, after),
    ensures
        is_sound(val, after),
        after.tensors@.len() == before.tensors@.len(),
        after.position_to_logical@ == if moves {
            moved_up(before.position_to_logical@, lo, hi)
        } else {
            before.position_to_logical@
        },
        are_labels(moved_up(order, lo, hi), after.tensors@.len() as int),
        val(amplitude(after.tensors@, moved_up(order, lo, hi), k)) == val(
            amplitude(before.tensors@, order, k),
        ),
    decreases hi - lo,
{
    if lo < hi {
        let mid = choose|mid: Mps|
            swaps_up(moves, before, lo, hi - 1, mid) && #[trigger] one_swap(
                moves,
                mid,
                hi - 1,
                after,
                Ok::<(), GateError>(()),
            );
        lemma_swaps_up(val, moves, before, lo, hi - 1, mid, order, k);
        if moves {
            lemma_moved_up(before.position_to_logical@, lo, hi - 1);
        }
        lemma_one_swap(val, moves, mid, hi - 1, after, moved_up(order, lo, hi - 1), k);
    }
}

/// The values of two qubits in the other order.
spec fn turned(c: int) -> int {
    2 * (c % 2) + c / 2
}

proof fn lemma_mixed_turned(
    g: spec_fn(int) -> Gaussian,
    x: spec_fn(int) -> Gaussian,
    g2: spec_fn(int) -> Gaussian,
    x2: spec_fn(int) -> Gaussian,
)
    requires
        forall|c: int| 0 <= c < 4 ==> #[trigger] g(c) == g2(turned(c)),
        forall|c: int| 0 <= c < 4 ==> #[trigger] x(c) == x2(turned(c)),
    ensures
        mixed(g, x) == mixed(g2, x2),
{
    assert(g(0) == g2(0) && g(1) == g2(2) && g(2) == g2(1) && g(3) == g2(3)) by {
        assert(turned(0) == 0 && turned(1) == 2 && turned(2) == 1 && turned(3) == 3);
    }
    assert(x(0) == x2(0) && x(1) == x2(2) && x(2) == x2(1) && x(3) == x2(3)) by {
        assert(turned(0) == 0 && turned(1) == 2 && turned(2) == 1 && turned(3) == 3);
    }
    reveal_with_fuel(total, 5);
}

proof fn lemma_values_turned(k: usize, a: usize, b: usize, c: int)
    requires
        a < usize::BITS,
        b < usize::BITS,
        a != b,
        0 <= c < 4,
    ensures
        with_values(k, b, a, c) == with_values(k, a, b, turned(c)),
{
    let (x, y) = (with_values(k, b, a, c), with_values(k, a, b, turned(c)));
    assert forall|p: usize| p < usize::BITS implies bit_set(x, p) == bit_set(y, p) by {
        lemma_with_values(k, b, a, c, p);
        lemma_with_values(k, a, b, turned(c), p);
    }
    lemma_bits_determine(x, y);
}

proof fn lemma_inverse_labels(m: Mps)
    requires
        m.wf(),
        m.tensors@.len() <= usize::BITS,
    ensures
        are_labels(m.position_to_logical@, m.tensors@.len() as int),
{
    let order = m.position_to_logical@;
    assert forall|i: int, j: int| 0 <= i < j < order.len() implies #[trigger] order[i]
        != #[trigger] order[j] by {
        assert(m.logical_to_position@[order[i] as int] == i);
        assert(m.logical_to_position@[order[j] as int] == j);
    }
}

proof fn lemma_brought(
    val: spec_fn(Complex64) -> Gaussian,
    moves: bool,
    before: Mps,
    start: Mps,
    lo: int,
    hi: int,
    mid: Mps,
    k: usize,
) -> (order: Seq<usize>)
    requires
        is_exact(val),
        is_sound(val, before),
        are_labels(before.position_to_logical@, before.tensors@.len() as int),
        0 <= lo < hi < before.tensors@.len(),
        is_brought(moves, before, start, lo, hi, mid),
    ensures
        is_sound(val, mid),
        mid.tensors@.len() == before.tensors@.len(),
        mid.position_to_logical@.len() == before.tensors@.len(),
        are_labels(order, mid.tensors@.len() as int),
        moves ==> order == mid.position_to_logical@,
        !moves ==> order == moved_down(before.position_to_logical@, hi, lo + 1)
            && mid.position_to_logical@ == before.position_to_logical@,
        val(amplitude(mid.tensors@, order, k)) == val(
            amplitude(before.tensors@, before.position_to_logical@, k),
        ),
{
    let labels = before.position_to_logical@;
    if swaps_down(moves, start, hi, lo + 1, mid) {
        lemma_swaps_down(val, moves, start, hi, lo + 1, mid, labels, k);
        lemma_moved_down(labels, hi, lo + 1);
        moved_down(labels, hi, lo + 1)
    } else {
        lemma_swaps_up(val, true, start, lo, hi - 1, mid, labels, k);
        lemma_moved_up(labels, lo, hi - 1);
        moved_up(labels, lo, hi - 1)
    }
}

/// A two-qubit gate makes of the amplitudes of a matrix product state what its matrix says: each
/// amplitude becomes the sum of the four amplitudes that differ from it at most in the two
/// qubits, times the entries of the row that the values of the two qubits name. Its first qubit
/// is the higher bit of rows and columns, whichever of the qubits has the larger
/// number, and however the qubits are routed.
pub proof fn law_two_qubit_gates_mix_amplitudes(
    val: spec_fn(Complex64) -> Gaussian,
    gate: Matrix4,
    a: usize,
    b: usize,
    hint: Option<MpsTwoQKernel>,
    ahead: Seq<Instruction>,
    before: MpsPoint,
    after: MpsPoint,
    k: usize,
)
    requires
        is_exact(val),
        before.mps.wf(),
        before.mps.tensors@.len() <= usize::BITS,
        loses_nothing(
            val,
            before.mps.truncation_threshold,
            before.mps.max_bond_dimension,
        ),
        a < before.mps.tensors@.len(),
        b < before.mps.tensors@.len(),
        a != b,
        hint_fits(gate, hint),
        acts_to(
            MpsAction::TwoQubit { gate, a, b, hint },
            ahead,
            before,
            after,
            Ok::<(), GateError>(()),
        ),
    ensures
        mixes_amplitudes(
            val,
            |c: int| val(gate[2 * bit_value(bit_set(k, a)) + bit_value(bit_set(k, b))][c]),
            before.mps.tensors@,
            before.mps.position_to_logical@,
            a,
            b,
            k,
            amplitude(after.mps.tensors@, after.mps.position_to_logical@, k),
        ),
{
    let m = before.mps;
    let n = m.tensors@.len() as int;
    let labels = m.position_to_logical@;
    let (mid, at, there) = law_two_qubit_gates_act_on_their_qubits(
        gate,
        a,
        b,
        hint,
        ahead,
        before,
        after,
    );
    lemma_inverse_labels(m);
    let pos_a = m.logical_to_position@[a as int] as int;
    let pos_b = m.logical_to_position@[b as int] as int;
    assert(labels[pos_a] == a && labels[pos_b] == b);
    let left = pos_a < pos_b;
    let (lo, hi) = (smaller(pos_a, pos_b), larger(pos_a, pos_b));
    assert(is_sound(val, m));
    let moves = !(m.config.routing_mode is Restore);
    let start = choose|start: Mps| #[trigger] is_brought(moves, m, start, lo, hi, mid);
    let order = lemma_brought(val, moves, m, start, lo, hi, mid, k);
    if !moves {
        lemma_moved_down(labels, hi, lo + 1);
    }
    let (first, second) = (order[at], order[at + 1]);
    assert(first == if left {
        a
    } else {
        b
    });
    assert(second == if left {
        b
    } else {
        a
    });
    lemma_gate_mixes_amplitudes(val, mid, at, gate, left, there, order, k);
    if moves {
        assert(after.mps.position_to_logical@ == order);
    } else {
        lemma_swaps_up(val, false, there, lo + 1, hi, after.mps, order, k);
        lemma_down_and_up(labels, hi, lo + 1);
        assert(after.mps.position_to_logical@ == labels);
    }
    let (ka, kb) = (bit_value(bit_set(k, a)), bit_value(bit_set(k, b)));
    let p = 2 * bit_value(bit_set(k, order[at])) + bit_value(bit_set(k, order[at + 1]));
    let g = |c: int|
        val(
            own_entry(
                gate,
                left,
                2 * bit_value(bit_set(k, order[at])) + bit_value(bit_set(k, order[at + 1])),
                c,
            ),
        );
    let x = |c: int|
        val(amplitude(mid.tensors@, order, with_values(k, order[at], order[at + 1], c)));
    let wanted_g = |c: int|
        val(gate[2 * bit_value(bit_set(k, a)) + bit_value(bit_set(k, b))][c]);
    let wanted_x = |c: int| val(amplitude(m.tensors@, labels, with_values(k, a, b, c)));
    assert forall|c: int| 0 <= c < 4 implies #[trigger] x(c) == val(
        amplitude(m.tensors@, labels, with_values(k, first, second, c)),
    ) by {
        let other = lemma_brought(
            val,
            moves,
            m,
            start,
            lo,
            hi,
            mid,
            with_values(k, first, second, c),
        );
        assert(other == order);
    }
    if left {
        assert forall|c: int| 0 <= c < 4 implies #[trigger] g(c) == wanted_g(c) by {
            assert(p / 2 == ka && p % 2 == kb);
            assert(2 * (c / 2) + c % 2 == c);
        }
        assert forall|c: int| 0 <= c < 4 implies #[trigger] x(c) == wanted_x(c) by {}
        lemma_mixed_same(g, wanted_g, x, wanted_x);
    } else {
        assert forall|c: int| 0 <= c < 4 implies #[trigger] g(c) == wanted_g(turned(c)) by {
            assert(p / 2 == kb && p % 2 == ka);
            assert(2 * (c % 2) + c / 2 == turned(c));
        }
        assert forall|c: int| 0 <= c < 4 implies #[trigger] x(c) == wanted_x(turned(c)) by {
            lemma_values_turned(k, a, b, c);
        }
        lemma_mixed_turned(g, x, wanted_g, wanted_x);
    }
}

/// A controlled NOT on a matrix product state exchanges the amplitudes that differ in its target
/// where its control is set, and leaves the others alone, whichever of the two qubits has the
/// larger number.
pub proof fn law_controlled_not_moves_amplitudes(
    val: spec_fn(Complex64) -> Gaussian,
    control: usize,
    target: usize,
    links: LinkGates,
    ahead: Seq<Instruction>,
    before: MpsPoint,
    after: MpsPoint,
    k: usize,
)
    requires
        is_exact(val),
        before.mps.wf(),
        before.mps.tensors@.len() <= usize::BITS,
        loses_nothing(
            val,
            before.mps.truncation_threshold,
            before.mps.max_bond_dimension,
        ),
        control < before.mps.tensors@.len(),
        target < before.mps.tensors@.len(),
        control != target,
        mps_steps_to(
            Instruction::Cx { control, target },
            ahead,
            links,
            before,
            after,
            Ok::<(), GateError>(()),
        ),
    ensures
        val(amplitude(after.mps.tensors@, after.mps.position_to_logical@, k)) == val(
            amplitude(
                before.mps.tensors@,
                before.mps.position_to_logical@,
                if bit_set(k, control) {
                    k ^ bit_mask(target)
                } else {
                    k
                },
            ),
        ),
{
    let inst = Instruction::Cx { control, target };
    let action = choose|action: Result<MpsAction, GateError>| #[trigger]
        is_mps_action_of(inst, links, action) && match action {
            Ok(act) => acts_to(act, ahead, before, after, Ok::<(), GateError>(())),
            Err(e) => after == before && Ok::<(), GateError>(()) == Err::<(), GateError>(e),
        };
    lemma_action_matrix(inst, links, action->Ok_0);
    let gate = action->Ok_0->TwoQubit_gate;
    let hint = action->Ok_0->TwoQubit_hint;
    assert(action->Ok_0 == (MpsAction::TwoQubit { gate, a: control, b: target, hint }));
    law_two_qubit_gates_mix_amplitudes(
        val,
        gate,
        control,
        target,
        hint,
        ahead,
        before,
        after,
        k,
    );
    let u = choose|u: Matrix2| #[trigger]
        is_guard_matrix(gate, u) && is_target_matrix(inst, u) && forall|plain: Instruction|
            is_plain_form(inst, plain) ==> #[trigger] is_matrix_of(plain, u);
    let x_gate = Instruction::X { qubit: target };
    assert(is_plain_form(inst, x_gate));
    assert(is_matrix_of(x_gate, u));
    let (kc, kt) = (bit_value(bit_set(k, control)), bit_value(bit_set(k, target)));
    let j = if kc == 1 {
        2 + (1 - kt)
    } else {
        kt
    };
    let g = |c: int|
        val(gate[2 * bit_value(bit_set(k, control)) + bit_value(bit_set(k, target))][c]);
    let x = |c: int|
        val(
            amplitude(
                before.mps.tensors@,
                before.mps.position_to_logical@,
                with_values(k, control, target, c),
            ),
        );
    assert forall|c: int| 0 <= c < 4 implies #[trigger] g(c) == if c == j {
        Gaussian { re: 1, im: 0 }
    } else {
        nothing()
    } by {
        assert(2 * (c / 2) + c % 2 == c);
        assert(gate[2 * kc + kt][2 * (c / 2) + c % 2] == gate[2 * kc + kt][c]);
        assert(val(complex_of(1, 0)) == (Gaussian { re: 1, im: 0 }));
        assert(val(complex_of(0, 0)) == nothing());
    }
    lemma_unit_mixed(g, x, j);
    let own = with_values(k, control, target, j);
    let wanted = if bit_set(k, control) {
        k ^ bit_mask(target)
    } else {
        k
    };
    assert forall|p: usize| p < usize::BITS implies bit_set(own, p) == bit_set(wanted, p) by {
        lemma_with_values(k, control, target, j, p);
        lemma_bit_ops(k, bit_mask(target), p);
        lemma_mask_bit(target, p);
    }
    lemma_bits_determine(own, wanted);
}

proof fn lemma_mixed_by_one(
    val: spec_fn(Complex64) -> Gaussian,
    g: spec_fn(int, int) -> Gaussian,
    tensors: Seq<Tensor>,
    at: int,
    new_tensor: Tensor,
    order: Seq<usize>,
    k: usize,
    count: int,
    r: int,
)
    requires
        is_exact(val),
        shares_bonds(tensors),
        are_labels(order, tensors.len() as int),
        0 <= at < count <= tensors.len(),
        new_tensor.left == tensors[at].left,
        new_tensor.right == tensors[at].right,
        forall|l: int, s: int, rt: int|
            #![trigger new_tensor.at(l, s, rt)]
            0 <= l < new_tensor.left && 0 <= s < 2 && 0 <= rt < new_tensor.right ==> val(
                new_tensor.at(l, s, rt),
            ) == mixed(|c: int| g(s, c), |c: int| val(tensors[at].at(l, c % 2, rt))),
        0 <= r < tensors[count - 1].right,
    ensures
        val(carried(tensors.update(at, new_tensor), order, k, count)[r]) == mixed(
            |c: int| g(bit_value(bit_set(k, order[at])), c),
            |c: int| val(carried(tensors, order, with_value(k, order[at], c % 2), count)[r]),
        ),
    decreases count,
{
    let new = tensors.update(at, new_tensor);
    let a = order[at];
    let s0 = bit_value(bit_set(k, a));
    let row = |c: int| g(s0, c);
    let own = |c: int| with_value(k, a, c % 2);
    let goal = |c: int| val(carried(tensors, order, own(c), count)[r]);
    let last = count - 1;
    let tensor = tensors[last];
    let width = tensor.left as int;
    assert(last > 0 ==> tensors[last - 1].right == tensors[last].left);
    assert forall|c: int, i: int| 0 <= c < 4 && 0 <= i < tensors.len() && i != at implies bit_set(
        k,
        order[i],
    ) == #[trigger] bit_set(own(c), order[i]) by {
        assert(order[i] != a) by {
            if i < at {
                assert(order[i] != order[at]);
            } else {
                assert(order[at] != order[i]);
            }
        }
        lemma_with_value(k, a, c % 2, order[i]);
    }
    if last == at {
        let work = carried(tensors, order, k, at);
        assert forall|i: int| 0 <= i < at implies #[trigger] new[i] == tensors[i] by {}
        lemma_same_carried(new, tensors, order, order, k, k, at);
        assert(carried(new, order, k, count)[r] == carry_sum(work, new_tensor, s0, r, width));
        lemma_carry_sum(val, work, new_tensor, s0, r, width);
        let x = |c: int, l: int| val(tensor.at(l, c % 2, r));
        let t = |l: int| val(work[l]);
        let first = |l: int| gaussian_product(val(work[l]), val(new_tensor.at(l, s0, r)));
        let second = |l: int| gaussian_product(mixed(row, |c: int| x(c, l)), t(l));
        assert forall|l: int| 0 <= l < width implies #[trigger] first(l) == second(l) by {
            assert(val(new_tensor.at(l, s0, r)) == mixed(
                |c: int| g(s0, c),
                |c: int| val(tensors[at].at(l, c % 2, r)),
            ));
            lemma_mixed_same(
                |c: int| g(s0, c),
                row,
                |c: int| val(tensors[at].at(l, c % 2, r)),
                |c: int| x(c, l),
            );
            lemma_commutes(val(work[l]), val(new_tensor.at(l, s0, r)));
        }
        lemma_total_same(first, second, width);
        lemma_mixed_total(row, x, t, width);
        let sums = |c: int| total(|l: int| gaussian_product(x(c, l), t(l)), width);
        assert forall|c: int| 0 <= c < 4 implies #[trigger] sums(c) == goal(c) by {
            let kc = own(c);
            lemma_with_value(k, a, c % 2, a);
            assert forall|i: int| 0 <= i < at implies bit_set(k, #[trigger] order[i]) == bit_set(
                kc,
                order[i],
            ) by {
                assert(bit_set(k, order[i]) == bit_set(own(c), order[i]));
            }
            lemma_same_carried(tensors, tensors, order, order, k, kc, at);
            assert(bit_value(bit_set(kc, a)) == c % 2);
            assert(carried(tensors, order, kc, count)[r] == carry_sum(
                work,
                tensor,
                c % 2,
                r,
                width,
            ));
            lemma_carry_sum(val, work, tensor, c % 2, r, width);
            let one = |l: int| gaussian_product(val(work[l]), val(tensor.at(l, c % 2, r)));
            let two = |l: int| gaussian_product(x(c, l), t(l));
            assert forall|l: int| 0 <= l < width implies #[trigger] one(l) == two(l) by {
                lemma_commutes(val(work[l]), val(tensor.at(l, c % 2, r)));
            }
            lemma_total_same(one, two, width);
        }
        lemma_mixed_same(row, row, sums, goal);
    } else {
        let state = bit_value(bit_set(k, order[last]));
        assert(new[last] == tensor);
        let x = |c: int, l: int| val(carried(tensors, order, own(c), last)[l]);
        let t = |l: int| val(tensor.at(l, state, r));
        let work = carried(new, order, k, last);
        assert(carried(new, order, k, count)[r] == carry_sum(work, tensor, state, r, width));
        lemma_carry_sum(val, work, tensor, state, r, width);
        let first = |l: int| gaussian_product(val(work[l]), val(tensor.at(l, state, r)));
        let second = |l: int| gaussian_product(mixed(row, |c: int| x(c, l)), t(l));
        assert forall|l: int| 0 <= l < width implies #[trigger] first(l) == second(l) by {
            lemma_mixed_by_one(val, g, tensors, at, new_tensor, order, k, last, l);
            lemma_mixed_same(
                |c: int| g(bit_value(bit_set(k, order[at])), c),
                row,
                |c: int| val(carried(tensors, order, with_value(k, order[at], c % 2), last)[l]),
                |c: int| x(c, l),
            );
        }
        lemma_total_same(first, second, width);
        lemma_mixed_total(row, x, t, width);
        let sums = |c: int| total(|l: int| gaussian_product(x(c, l), t(l)), width);
        assert forall|c: int| 0 <= c < 4 implies #[trigger] sums(c) == goal(c) by {
            let kc = own(c);
            assert(bit_set(k, order[last]) == bit_set(own(c), order[last]));
            let before = carried(tensors, order, kc, last);
            assert(carried(tensors, order, kc, count)[r] == carry_sum(
                before,
                tensor,
                state,
                r,
                width,
            ));
            lemma_carry_sum(val, before, tensor, state, r, width);
            lemma_total_same(
                |l: int| gaussian_product(val(before[l]), val(tensor.at(l, state, r))),
                |l: int| gaussian_product(x(c, l), t(l)),
                width,
            );
        }
        lemma_mixed_same(row, row, sums, goal);
    }
    lemma_mixed_same(
        row,
        |c: int| g(bit_value(bit_set(k, order[at])), c),
        goal,
        |c: int| val(carried(tensors, order, with_value(k, order[at], c % 2), count)[r]),
    );
}

/// A one-qubit gate makes of the amplitudes of a matrix product state what its matrix says: each
/// amplitude becomes the sum of the two amplitudes that differ from it at most in the qubit, times
/// the entries of the row that the value of the qubit names.
pub proof fn law_one_qubit_gates_mix_amplitudes(
    val: spec_fn(Complex64) -> Gaussian,
    inst: Instruction,
    qubit: usize,
    links: LinkGates,
    ahead: Seq<Instruction>,
    before: MpsPoint,
    after: MpsPoint,
    k: usize,
) -> (m: Matrix2)
    requires
        is_exact(val),
        single_gate_qubit(inst) == Some(qubit),
        !(inst is Id) && !(inst is U0),
        before.mps.wf(),
        before.mps.tensors@.len() <= usize::BITS,
        qubit < before.mps.tensors@.len(),
        mps_steps_to(inst, ahead, links, before, after, Ok::<(), GateError>(())),
    ensures
        is_matrix_of(inst, m),
        ({
            let amp = |basis: usize|
                val(amplitude(before.mps.tensors@, before.mps.position_to_logical@, basis));
            let row = bit_value(bit_set(k, qubit));
            val(amplitude(after.mps.tensors@, after.mps.position_to_logical@, k)) == gaussian_sum(
                gaussian_product(val(m[row][0]), amp(clear_bit(k, qubit))),
                gaussian_product(val(m[row][1]), amp(with_bit(k, qubit))),
            )
        }),
{
    let action = choose|action: Result<MpsAction, GateError>| #[trigger]
        is_mps_action_of(inst, links, action) && match action {
            Ok(act) => acts_to(act, ahead, before, after, Ok::<(), GateError>(())),
            Err(e) => after == before && Ok::<(), GateError>(()) == Err::<(), GateError>(e),
        };
    let m = action->Ok_0->OneQubit_matrix;
    let tensors = before.mps.tensors@;
    let order = before.mps.position_to_logical@;
    let n = tensors.len() as int;
    let at = before.mps.logical_to_position@[qubit as int] as int;
    assert(order[at] == qubit);
    lemma_inverse_labels(before.mps);
    let old_tensor = tensors[at];
    let new_tensor = after.mps.tensors@[at];
    let g = |s: int, c: int|
        if c < 2 {
            val(m[s][c])
        } else {
            nothing()
        };
    assert(val(complex_of(0, 0)) == nothing());
    assert forall|l: int, s: int, rt: int|
        #![trigger new_tensor.at(l, s, rt)]
        0 <= l < new_tensor.left && 0 <= s < 2 && 0 <= rt < new_tensor.right implies val(
        new_tensor.at(l, s, rt),
    ) == mixed(|c: int| g(s, c), |c: int| val(old_tensor.at(l, c % 2, rt))) by {
        let (l1, s1, r1) = (l as usize, s as usize, rt as usize);
        assert(is_entry(
            new_tensor.left as int,
            new_tensor.right as int,
            l1 as int,
            s1 as int,
            r1 as int,
        ));
        let first = complex_mul(m[s][0], old_tensor.at(l, 0, rt));
        let second = complex_mul(m[s][1], old_tensor.at(l, 1, rt));
        let start = complex_add(complex_zero(), first);
        assert(new_tensor.at(l1 as int, s1 as int, r1 as int) == complex_add(start, second));
        assert(val(start) == gaussian_sum(val(complex_zero()), val(first)));
        assert(val(complex_add(start, second)) == gaussian_sum(val(start), val(second)));
        lemma_two_terms(|c: int| g(s, c), |c: int| val(old_tensor.at(l, c % 2, rt)));
    }
    lemma_mixed_by_one(val, g, tensors, at, new_tensor, order, k, n, 0);
    assert(after.mps.tensors@ =~= tensors.update(at, new_tensor));
    lemma_two_terms(
        |c: int| g(bit_value(bit_set(k, order[at])), c),
        |c: int| val(carried(tensors, order, with_value(k, order[at], c % 2), n)[0]),
    );
    m
}

proof fn lemma_two_terms(g: spec_fn(int) -> Gaussian, x: spec_fn(int) -> Gaussian)
    requires
        g(2) == nothing(),
        g(3) == nothing(),
    ensures
        mixed(g, x) == gaussian_sum(gaussian_product(g(0), x(0)), gaussian_product(g(1), x(1))),
{
    let (y, z) = (x(2), x(3));
    assert(0 * y.re == 0 && 0 * y.im == 0 && 0 * z.re == 0 && 0 * z.im == 0) by (nonlinear_arith);
    reveal_with_fuel(total, 5);
}

/// Where no singular value is left out, and the factors of a decomposition multiply back to what
/// was decomposed, so do the tensors that are made of them.
pub proof fn law_untruncated_factors_multiply_back(
    val: spec_fn(Complex64) -> Gaussian,
    theta: Tensor,
    u: Tensor,
    s: Seq<Complex64>,
    v: Tensor,
    threshold: Complex64,
    max_bond: Option<usize>,
    left: Tensor,
    right: Tensor,
)
    requires
        is_exact(val),
        is_truncation(u, s, v, threshold, max_bond, left, right),
        kept_count(s, threshold, max_bond) == s.len(),
        u.right == s.len(),
        v.left == s.len(),
        !real_less(complex_zero(), complex_zero()),
        forall|b: int|
            0 <= b < s.len() ==> val(real_mul(#[trigger] s[b], complex_one())) == val(s[b]),
        forall|l: int, s0: int, s1: int, r: int|
            #![trigger theta.at(l * 2 + s0, s1, r)]
            0 <= l < u.left && 0 <= s0 < 2 && 0 <= s1 < 2 && 0 <= r < v.right ==> val(
                theta.at(l * 2 + s0, s1, r),
            ) == total(
                |b: int|
                    gaussian_product(
                        val(u.at(l, s0, b)),
                        gaussian_product(val(s[b]), val(v.at(b, s1, r))),
                    ),
                s.len() as int,
            ),
    ensures
        multiplies_back(val, theta, left, right),
{
    let n = s.len() as int;
    assert(square_sum(s, n, n) == complex_zero());
    assert(truncation_scale(s, n) == complex_one());
    assert forall|l: int, s0: int, s1: int, r: int|
        #![trigger block(val, left, right, l, s0, s1, r)]
        0 <= l < left.left && 0 <= s0 < 2 && 0 <= s1 < 2 && 0 <= r < right.right implies block(
        val,
        left,
        right,
        l,
        s0,
        s1,
        r,
    ) == val(theta.at(l * 2 + s0, s1, r)) by {
        lemma_pair_sum(val, left, right, l, s0, s1, r, n);
        let first = |b: int| gaussian_product(val(left.at(l, s0, b)), val(right.at(b, s1, r)));
        let second = |b: int|
            gaussian_product(
                val(u.at(l, s0, b)),
                gaussian_product(val(s[b]), val(v.at(b, s1, r))),
            );
        assert forall|b: int| 0 <= b < n implies #[trigger] first(b) == second(b) by {
            let (l1, t0, t1, r1, b1) = (
                l as usize,
                s0 as usize,
                s1 as usize,
                r as usize,
                b as usize,
            );
            assert(left.right == n && right.left == n);
            assert(left.at(l1 as int, t0 as int, b1 as int) == u.at(l, s0, b));
            assert(right.at(b1 as int, t1 as int, r1 as int) == complex_mul(
                real_mul(s[b], complex_one()),
                v.at(b, s1, r),
            ));
        }
        lemma_total_same(first, second, n);
        assert(val(theta.at(l * 2 + s0, s1, r)) == total(second, n)) by {
            lemma_total_same(
                |b: int|
                    gaussian_product(
                        val(u.at(l, s0, b)),
                        gaussian_product(val(s[b]), val(v.at(b, s1, r))),
                    ),
                second,
                n,
            );
        }
    }
}

} // verus!
