//! What the probabilities of a matrix product state are in exact arithmetic.
//!
//! The weight of an outcome is computed along the line of tensors. In exact arithmetic it is the
//! sum of the squared moduli of all amplitudes at which the qubit has that value.

use num_complex::Complex64;
use vstd::arithmetic::div_mod::lemma_fundamental_div_mod_converse;
use vstd::prelude::*;

use crate::bits::bit_set;
use crate::complex::{
    complex_add, complex_conj, complex_mul, complex_of, complex_one, complex_same, complex_zero,
};
use crate::exact_laws::{
    are_labels, is_exact, lemma_carry_sum, lemma_commutes, lemma_total_added, lemma_total_same,
    lemma_total_scaled, lemma_with_value, nothing, shares_bonds, total, with_value,
};
use crate::mps_state::{
    amplitude, bit_value, carried, carry_sum, contracted, contraction_sum, environment,
};
use crate::mps_tensor::Tensor;
use crate::product_laws::{lemma_gaussian_distributes, lemma_gaussian_ring};
use crate::stabilizer_laws::{gaussian_product, gaussian_sum, Gaussian};

verus! {

/// The conjugate of a complex integer.
pub open spec fn conjugate(x: Gaussian) -> Gaussian {
    Gaussian { re: x.re, im: -x.im }
}

/// Whether conjugates are read as such, and what compares equal to zero as zero.
pub open spec fn reads_conjugates(val: spec_fn(Complex64) -> Gaussian) -> bool {
    &&& forall|x: Complex64| val(#[trigger] complex_conj(x)) == conjugate(val(x))
    &&& forall|x: Complex64| #[trigger] complex_same(x, complex_zero()) ==> val(x) == nothing()
}

/// A number times the conjugate of another one.
pub open spec fn pairing(x: Gaussian, y: Gaussian) -> Gaussian {
    gaussian_product(x, conjugate(y))
}

/// The sum of a function over the pairs of the first `n` numbers.
pub open spec fn double_total(f: spec_fn(int, int) -> Gaussian, n: int) -> Gaussian {
    total(|i: int| total(|j: int| f(i, j), n), n)
}

proof fn lemma_double_same(
    f: spec_fn(int, int) -> Gaussian,
    g: spec_fn(int, int) -> Gaussian,
    n: int,
)
    requires
        forall|i: int, j: int| 0 <= i < n && 0 <= j < n ==> #[trigger] f(i, j) == g(i, j),
    ensures
        double_total(f, n) == double_total(g, n),
{
    let a = |i: int| total(|j: int| f(i, j), n);
    let b = |i: int| total(|j: int| g(i, j), n);
    assert forall|i: int| 0 <= i < n implies #[trigger] a(i) == b(i) by {
        let x = |j: int| f(i, j);
        let y = |j: int| g(i, j);
        assert forall|j: int| 0 <= j < n implies #[trigger] x(j) == y(j) by {
            assert(f(i, j) == g(i, j));
        }
        lemma_total_same(x, y, n);
    }
    lemma_total_same(a, b, n);
}

proof fn lemma_double_added(
    f: spec_fn(int, int) -> Gaussian,
    g: spec_fn(int, int) -> Gaussian,
    n: int,
)
    ensures
        double_total(|i: int, j: int| gaussian_sum(f(i, j), g(i, j)), n) == gaussian_sum(
            double_total(f, n),
            double_total(g, n),
        ),
{
    let a = |i: int| total(|j: int| f(i, j), n);
    let b = |i: int| total(|j: int| g(i, j), n);
    let both = |i: int| total(|j: int| gaussian_sum(f(i, j), g(i, j)), n);
    assert forall|i: int| 0 <= i < n implies #[trigger] both(i) == gaussian_sum(a(i), b(i)) by {
        lemma_total_added(|j: int| f(i, j), |j: int| g(i, j), n);
        lemma_total_same(
            |j: int| gaussian_sum((|j: int| f(i, j))(j), (|j: int| g(i, j))(j)),
            |j: int| gaussian_sum(f(i, j), g(i, j)),
            n,
        );
    }
    lemma_total_same(both, |i: int| gaussian_sum(a(i), b(i)), n);
    lemma_total_added(a, b, n);
    let h = |i: int, j: int| gaussian_sum(f(i, j), g(i, j));
    let lines = |i: int| total(|j: int| h(i, j), n);
    assert forall|i: int| 0 <= i < n implies #[trigger] lines(i) == both(i) by {
        lemma_total_same(|j: int| h(i, j), |j: int| gaussian_sum(f(i, j), g(i, j)), n);
    }
    lemma_total_same(lines, both, n);
}

proof fn lemma_conjugate_total(f: spec_fn(int) -> Gaussian, n: int)
    ensures
        conjugate(total(f, n)) == total(|i: int| conjugate(f(i)), n),
    decreases n,
{
    if n > 0 {
        lemma_conjugate_total(f, n - 1);
    }
}

proof fn lemma_conjugate_product(x: Gaussian, y: Gaussian)
    ensures
        conjugate(gaussian_product(x, y)) == gaussian_product(conjugate(x), conjugate(y)),
{
    assert((-x.im) * (-y.im) == x.im * y.im && x.re * (-y.im) == -(x.re * y.im) && (-x.im) * y.re
        == -(x.im * y.re)) by (nonlinear_arith);
}

/// A product of sums is a sum over pairs.
proof fn lemma_product_of_totals(
    w: spec_fn(int) -> Gaussian,
    p: spec_fn(int) -> Gaussian,
    q: spec_fn(int) -> Gaussian,
    n: int,
)
    ensures
        pairing(
            total(|l: int| gaussian_product(w(l), p(l)), n),
            total(|l: int| gaussian_product(w(l), q(l)), n),
        ) == double_total(
            |i: int, j: int| gaussian_product(pairing(w(i), w(j)), pairing(p(i), q(j))),
            n,
        ),
{
    let x = |l: int| gaussian_product(w(l), p(l));
    let y = |l: int| gaussian_product(w(l), q(l));
    let z = |l: int| conjugate(y(l));
    let goal = |i: int, j: int| gaussian_product(pairing(w(i), w(j)), pairing(p(i), q(j)));
    lemma_conjugate_total(y, n);
    lemma_total_same(|i: int| conjugate(y(i)), z, n);
    lemma_total_scaled(total(z, n), x, n);
    let rows = |i: int| gaussian_product(x(i), total(z, n));
    let wanted = |i: int| total(|j: int| goal(i, j), n);
    assert forall|i: int| 0 <= i < n implies #[trigger] rows(i) == wanted(i) by {
        lemma_total_scaled(x(i), z, n);
        let first = |j: int| gaussian_product(x(i), z(j));
        let second = |j: int| goal(i, j);
        assert forall|j: int| 0 <= j < n implies #[trigger] first(j) == second(j) by {
            lemma_conjugate_product(w(j), q(j));
            lemma_four(w(i), p(i), conjugate(w(j)), conjugate(q(j)));
        }
        lemma_total_same(first, second, n);
    }
    lemma_total_same(rows, wanted, n);
}

proof fn lemma_four(a: Gaussian, b: Gaussian, c: Gaussian, d: Gaussian)
    ensures
        gaussian_product(gaussian_product(a, b), gaussian_product(c, d)) == gaussian_product(
            gaussian_product(a, c),
            gaussian_product(b, d),
        ),
{
    lemma_gaussian_ring(a, b, gaussian_product(c, d));
    lemma_gaussian_ring(b, c, d);
    lemma_commutes(b, c);
    lemma_gaussian_ring(c, b, d);
    lemma_gaussian_ring(a, c, gaussian_product(b, d));
}

/// The product of an entry of a tensor with the conjugate of another one.
pub open spec fn entry_pairing(
    val: spec_fn(Complex64) -> Gaussian,
    t: Tensor,
    state: int,
    r: int,
    r2: int,
) -> spec_fn(int, int) -> Gaussian {
    |l: int, l2: int| pairing(val(t.at(l, state, r)), val(t.at(l2, state, r2)))
}

proof fn lemma_contraction(
    val: spec_fn(Complex64) -> Gaussian,
    t: Tensor,
    env: Seq<Complex64>,
    state: int,
    r: int,
    r2: int,
    start: Complex64,
    count: int,
)
    requires
        is_exact(val),
        reads_conjugates(val),
        t.left >= 1,
    ensures
        val(contraction_sum(t, env, state, r, r2, start, count)) == gaussian_sum(
            val(start),
            total(
                |i: int|
                    gaussian_product(
                        val(env[i]),
                        entry_pairing(val, t, state, r, r2)(
                            i / t.left as int,
                            i % t.left as int,
                        ),
                    ),
                count,
            ),
        ),
    decreases count,
{
    if count > 0 {
        lemma_contraction(val, t, env, state, r, r2, start, count - 1);
        let i = count - 1;
        let l = i / t.left as int;
        let l2 = i % t.left as int;
        let (e, x, y) = (env[i], t.at(l, state, r), t.at(l2, state, r2));
        let so_far = contraction_sum(t, env, state, r, r2, start, i);
        let first = complex_mul(e, x);
        let second = complex_mul(first, complex_conj(y));
        assert(val(first) == gaussian_product(val(e), val(x)));
        assert(val(second) == gaussian_product(val(first), val(complex_conj(y))));
        assert(val(complex_add(so_far, second)) == gaussian_sum(val(so_far), val(second)));
        lemma_gaussian_ring(val(e), val(x), conjugate(val(y)));
        let term = gaussian_product(val(e), pairing(val(x), val(y)));
        assert(val(second) == term);
        if complex_same(e, complex_zero()) || complex_same(x, complex_zero()) {
            lemma_zero_product(val(e), val(x), conjugate(val(y)));
        }
    }
}

proof fn lemma_zero_product(e: Gaussian, x: Gaussian, y: Gaussian)
    requires
        e == nothing() || x == nothing(),
    ensures
        gaussian_product(e, gaussian_product(x, y)) == nothing(),
{
    let p = gaussian_product(x, y);
    assert(0 * y.re == 0 && 0 * y.im == 0 && 0 * p.re == 0 && 0 * p.im == 0 && e.re * 0 == 0
        && e.im * 0 == 0) by (nonlinear_arith);
}

/// A sum over places is a sum over rows and columns.
proof fn lemma_total_of_places(
    f: spec_fn(int) -> Gaussian,
    g: spec_fn(int, int) -> Gaussian,
    width: int,
    rows: int,
)
    requires
        width >= 1,
        0 <= rows,
        forall|i: int, j: int|
            0 <= i < rows && 0 <= j < width ==> f(i * width + j) == #[trigger] g(i, j),
    ensures
        total(f, rows * width) == total(|i: int| total(|j: int| g(i, j), width), rows),
    decreases rows,
{
    let lines = |i: int| total(|j: int| g(i, j), width);
    if rows > 0 {
        lemma_total_of_places(f, g, width, rows - 1);
        lemma_total_same(
            |i: int| total(|j: int| g(i, j), width),
            lines,
            rows - 1,
        );
        lemma_total_line(f, g, width, rows - 1, width);
        assert((rows - 1) * width + width == rows * width) by (nonlinear_arith);
    } else {
        assert(0 * width == 0) by (nonlinear_arith);
    }
}

proof fn lemma_total_line(
    f: spec_fn(int) -> Gaussian,
    g: spec_fn(int, int) -> Gaussian,
    width: int,
    row: int,
    count: int,
)
    requires
        0 <= row,
        0 <= count <= width,
        forall|j: int| 0 <= j < width ==> f(row * width + j) == #[trigger] g(row, j),
    ensures
        total(f, row * width + count) == gaussian_sum(
            total(f, row * width),
            total(|j: int| g(row, j), count),
        ),
    decreases count,
{
    if count > 0 {
        lemma_total_line(f, g, width, row, count - 1);
        assert(row * width >= 0) by (nonlinear_arith)
            requires
                0 <= row,
                0 <= width,
        ;
        assert(f(row * width + (count - 1)) == g(row, count - 1));
    }
}

/// What an environment holds for a pair of values of its bond, read exactly.
pub open spec fn held(
    val: spec_fn(Complex64) -> Gaussian,
    env: Seq<Complex64>,
    width: int,
    r: int,
    r2: int,
) -> Gaussian {
    val(env[r * width + r2])
}

proof fn lemma_contracted(
    val: spec_fn(Complex64) -> Gaussian,
    t: Tensor,
    env: Seq<Complex64>,
    state: int,
    r: int,
    r2: int,
    start: Complex64,
)
    requires
        is_exact(val),
        reads_conjugates(val),
        t.left >= 1,
        0 <= r < t.right,
        0 <= r2 < t.right,
    ensures
        val(contracted(t, env, state, r * t.right + r2, start)) == gaussian_sum(
            val(start),
            double_total(
                |l: int, l2: int|
                    gaussian_product(
                        held(val, env, t.left as int, l, l2),
                        entry_pairing(val, t, state, r, r2)(l, l2),
                    ),
                t.left as int,
            ),
        ),
{
    let width = t.right as int;
    let k = r * t.right + r2;
    lemma_fundamental_div_mod_converse(k, width, r, r2);
    let left = t.left as int;
    lemma_contraction(val, t, env, state, r, r2, start, t.left * t.left);
    let e = entry_pairing(val, t, state, r, r2);
    let f = |i: int| gaussian_product(val(env[i]), e(i / t.left as int, i % t.left as int));
    let g = |l: int, l2: int| gaussian_product(held(val, env, left, l, l2), e(l, l2));
    assert forall|i: int, j: int| 0 <= i < left && 0 <= j < left implies f(i * left + j)
        == #[trigger] g(i, j) by {
        lemma_fundamental_div_mod_converse(i * left + j, left, i, j);
    }
    lemma_total_of_places(f, g, left, left);
    lemma_total_same(
        |i: int|
            gaussian_product(
                val(env[i]),
                entry_pairing(val, t, state, r, r2)(i / t.left as int, i % t.left as int),
            ),
        f,
        t.left * t.left,
    );
    lemma_double_same(
        |l: int, l2: int|
            gaussian_product(
                held(val, env, t.left as int, l, l2),
                entry_pairing(val, t, state, r, r2)(l, l2),
            ),
        g,
        left,
    );
}

/// The sum, over all values of the qubits at the first `m` positions, of what is carried to a
/// bond times the conjugate of what is carried to it. The qubit at `position` has one value only.
pub open spec fn weighed(
    val: spec_fn(Complex64) -> Gaussian,
    tensors: Seq<Tensor>,
    order: Seq<usize>,
    position: int,
    outcome: int,
    count: int,
    m: int,
    k: usize,
    r: int,
    r2: int,
) -> Gaussian
    decreases m,
{
    if m <= 0 {
        let work = carried(tensors, order, k, count);
        pairing(val(work[r]), val(work[r2]))
    } else if m - 1 == position {
        weighed(
            val,
            tensors,
            order,
            position,
            outcome,
            count,
            m - 1,
            with_value(k, order[m - 1], outcome),
            r,
            r2,
        )
    } else {
        gaussian_sum(
            weighed(
                val,
                tensors,
                order,
                position,
                outcome,
                count,
                m - 1,
                with_value(k, order[m - 1], 0),
                r,
                r2,
            ),
            weighed(
                val,
                tensors,
                order,
                position,
                outcome,
                count,
                m - 1,
                with_value(k, order[m - 1], 1),
                r,
                r2,
            ),
        )
    }
}

/// One more tensor carries a weighed sum on.
spec fn carried_weight(
    x: spec_fn(int, int) -> Gaussian,
    e: spec_fn(int, int) -> Gaussian,
    n: int,
) -> Gaussian {
    double_total(|l: int, l2: int| gaussian_product(x(l, l2), e(l, l2)), n)
}

proof fn lemma_carried_weight_added(
    x: spec_fn(int, int) -> Gaussian,
    y: spec_fn(int, int) -> Gaussian,
    z: spec_fn(int, int) -> Gaussian,
    e: spec_fn(int, int) -> Gaussian,
    n: int,
)
    requires
        forall|l: int, l2: int|
            0 <= l < n && 0 <= l2 < n ==> #[trigger] z(l, l2) == gaussian_sum(
                x(l, l2),
                y(l, l2),
            ),
    ensures
        carried_weight(z, e, n) == gaussian_sum(
            carried_weight(x, e, n),
            carried_weight(y, e, n),
        ),
{
    let f = |l: int, l2: int| gaussian_product(x(l, l2), e(l, l2));
    let g = |l: int, l2: int| gaussian_product(y(l, l2), e(l, l2));
    let h = |l: int, l2: int| gaussian_product(z(l, l2), e(l, l2));
    let both = |l: int, l2: int| gaussian_sum(f(l, l2), g(l, l2));
    assert forall|l: int, l2: int| 0 <= l < n && 0 <= l2 < n implies #[trigger] h(l, l2) == both(
        l,
        l2,
    ) by {
        assert(z(l, l2) == gaussian_sum(x(l, l2), y(l, l2)));
        lemma_gaussian_distributes(x(l, l2), y(l, l2), e(l, l2));
    }
    lemma_double_same(h, both, n);
    lemma_double_added(f, g, n);
    lemma_double_same(|i: int, j: int| gaussian_sum(f(i, j), g(i, j)), both, n);
}

proof fn lemma_weighed_step(
    val: spec_fn(Complex64) -> Gaussian,
    tensors: Seq<Tensor>,
    order: Seq<usize>,
    position: int,
    outcome: int,
    count: int,
    m: int,
    k: usize,
    r: int,
    r2: int,
)
    requires
        is_exact(val),
        are_labels(order, tensors.len() as int),
        0 <= m < count <= tensors.len(),
        0 <= r < tensors[count - 1].right,
        0 <= r2 < tensors[count - 1].right,
    ensures
        weighed(val, tensors, order, position, outcome, count, m, k, r, r2) == carried_weight(
            |l: int, l2: int|
                weighed(val, tensors, order, position, outcome, count - 1, m, k, l, l2),
            entry_pairing(
                val,
                tensors[count - 1],
                bit_value(bit_set(k, order[count - 1])),
                r,
                r2,
            ),
            tensors[count - 1].left as int,
        ),
    decreases m,
{
    let t = tensors[count - 1];
    let n = t.left as int;
    let state = bit_value(bit_set(k, order[count - 1]));
    let e = entry_pairing(val, t, state, r, r2);
    let before = |l: int, l2: int|
        weighed(val, tensors, order, position, outcome, count - 1, m, k, l, l2);
    if m == 0 {
        let work = carried(tensors, order, k, count - 1);
        let w = |l: int| val(work[l]);
        let p = |l: int| val(t.at(l, state, r));
        let q = |l: int| val(t.at(l, state, r2));
        lemma_carry_sum(val, work, t, state, r, n);
        lemma_carry_sum(val, work, t, state, r2, n);
        assert(carried(tensors, order, k, count)[r] == carry_sum(work, t, state, r, n));
        assert(carried(tensors, order, k, count)[r2] == carry_sum(work, t, state, r2, n));
        lemma_total_same(
            |l: int| gaussian_product(val(work[l]), val(t.at(l, state, r))),
            |l: int| gaussian_product(w(l), p(l)),
            n,
        );
        lemma_total_same(
            |l: int| gaussian_product(val(work[l]), val(t.at(l, state, r2))),
            |l: int| gaussian_product(w(l), q(l)),
            n,
        );
        lemma_product_of_totals(w, p, q, n);
        lemma_double_same(
            |i: int, j: int| gaussian_product(pairing(w(i), w(j)), pairing(p(i), q(j))),
            |l: int, l2: int| gaussian_product(before(l, l2), e(l, l2)),
            n,
        );
    } else {
        assert(order[m - 1] != order[count - 1]);
        let label = order[m - 1];
        assert(label < usize::BITS && order[count - 1] < usize::BITS);
        let parts = |value: int|
            |l: int, l2: int|
                weighed(
                    val,
                    tensors,
                    order,
                    position,
                    outcome,
                    count - 1,
                    m - 1,
                    with_value(k, label, value),
                    l,
                    l2,
                );
        lemma_with_value(k, label, 0, order[count - 1]);
        lemma_with_value(k, label, 1, order[count - 1]);
        lemma_with_value(k, label, outcome, order[count - 1]);
        if m - 1 == position {
            lemma_weighed_step(
                val,
                tensors,
                order,
                position,
                outcome,
                count,
                m - 1,
                with_value(k, label, outcome),
                r,
                r2,
            );
            lemma_double_same(
                |l: int, l2: int| gaussian_product(parts(outcome)(l, l2), e(l, l2)),
                |l: int, l2: int| gaussian_product(before(l, l2), e(l, l2)),
                n,
            );
            lemma_carried_weight_same(parts(outcome), before, e, n);
        } else {
            lemma_weighed_step(
                val,
                tensors,
                order,
                position,
                outcome,
                count,
                m - 1,
                with_value(k, label, 0),
                r,
                r2,
            );
            lemma_weighed_step(
                val,
                tensors,
                order,
                position,
                outcome,
                count,
                m - 1,
                with_value(k, label, 1),
                r,
                r2,
            );
            lemma_carried_weight_added(parts(0), parts(1), before, e, n);
        }
    }
    lemma_carried_weight_same(
        before,
        |l: int, l2: int|
            weighed(val, tensors, order, position, outcome, count - 1, m, k, l, l2),
        e,
        n,
    );
}

proof fn lemma_carried_weight_same(
    x: spec_fn(int, int) -> Gaussian,
    y: spec_fn(int, int) -> Gaussian,
    e: spec_fn(int, int) -> Gaussian,
    n: int,
)
    requires
        forall|l: int, l2: int| 0 <= l < n && 0 <= l2 < n ==> #[trigger] x(l, l2) == y(l, l2),
    ensures
        carried_weight(x, e, n) == carried_weight(y, e, n),
{
    let f = |l: int, l2: int| gaussian_product(x(l, l2), e(l, l2));
    let g = |l: int, l2: int| gaussian_product(y(l, l2), e(l, l2));
    assert forall|l: int, l2: int| 0 <= l < n && 0 <= l2 < n implies #[trigger] f(l, l2) == g(
        l,
        l2,
    ) by {
        assert(x(l, l2) == y(l, l2));
    }
    lemma_double_same(f, g, n);
}

/// The environment behind the first `count` tensors holds the sums over all values of their
/// qubits.
proof fn lemma_environment(
    val: spec_fn(Complex64) -> Gaussian,
    tensors: Seq<Tensor>,
    order: Seq<usize>,
    position: int,
    outcome: int,
    count: int,
    k: usize,
    r: int,
    r2: int,
)
    requires
        is_exact(val),
        reads_conjugates(val),
        shares_bonds(tensors),
        are_labels(order, tensors.len() as int),
        forall|i: int| 0 <= i < tensors.len() ==> (#[trigger] tensors[i]).left >= 1,
        0 <= outcome < 2,
        0 <= count <= tensors.len(),
        count > 0 ==> 0 <= r < tensors[count - 1].right && 0 <= r2 < tensors[count - 1].right,
        count == 0 ==> r == 0 && r2 == 0,
    ensures
        held(
            val,
            environment(tensors, position, outcome, count),
            (if count > 0 {
                tensors[count - 1].right as int
            } else {
                1
            }),
            r,
            r2,
        ) == weighed(val, tensors, order, position, outcome, count, count, k, r, r2),
    decreases count,
{
    assert(val(complex_of(1, 0)) == (Gaussian { re: 1, im: 0 }));
    assert(val(complex_of(0, 0)) == nothing());
    if count == 0 {
        assert(1 * 1 == 1 && 1 * -0 == 0 && 0 * -0 == 0 && 0 * 1 == 0) by (nonlinear_arith);
        assert(carried(tensors, order, k, 0) =~= seq![complex_one()]);
        assert(environment(tensors, position, outcome, 0) =~= seq![complex_one()]);
        let one = Gaussian { re: 1, im: 0 };
        assert(pairing(one, one) == one);
        assert(weighed(val, tensors, order, position, outcome, 0, 0, k, 0, 0) == one);
        assert(r * 1 + r2 == 0);
    } else {
        let t = tensors[count - 1];
        let n = t.left as int;
        let width = t.right as int;
        let env = environment(tensors, position, outcome, count - 1);
        let label = order[count - 1];
        assert(label < usize::BITS);
        assert(count > 1 ==> tensors[count - 2].right == t.left);
        let place = r * t.right + r2;
        assert(0 <= place < t.right * t.right) by (nonlinear_arith)
            requires
                place == r * t.right + r2,
                0 <= r < t.right,
                0 <= r2 < t.right,
        ;
        assert forall|state: int| 0 <= state < 2 implies #[trigger] weighed(
            val,
            tensors,
            order,
            position,
            outcome,
            count,
            count - 1,
            with_value(k, label, state),
            r,
            r2,
        ) == double_total(
            |l: int, l2: int|
                gaussian_product(
                    held(val, env, t.left as int, l, l2),
                    entry_pairing(val, t, state, r, r2)(l, l2),
                ),
            n,
        ) by {
            let ks = with_value(k, label, state);
            lemma_weighed_step(
                val,
                tensors,
                order,
                position,
                outcome,
                count,
                count - 1,
                ks,
                r,
                r2,
            );
            lemma_with_value(k, label, state, label);
            assert(bit_value(bit_set(ks, label)) == state);
            let e = entry_pairing(val, t, state, r, r2);
            let x = |l: int, l2: int|
                weighed(val, tensors, order, position, outcome, count - 1, count - 1, ks, l, l2);
            let y = |l: int, l2: int| held(val, env, t.left as int, l, l2);
            assert forall|l: int, l2: int| 0 <= l < n && 0 <= l2 < n implies #[trigger] x(l, l2)
                == y(l, l2) by {
                lemma_environment(
                    val,
                    tensors,
                    order,
                    position,
                    outcome,
                    count - 1,
                    ks,
                    l,
                    l2,
                );
            }
            lemma_carried_weight_same(x, y, e, n);
            lemma_double_same(
                |l: int, l2: int| gaussian_product(y(l, l2), e(l, l2)),
                |l: int, l2: int|
                    gaussian_product(
                        held(val, env, t.left as int, l, l2),
                        entry_pairing(val, t, state, r, r2)(l, l2),
                    ),
                n,
            );
        }
        let zero_part = contracted(t, env, 0, place, complex_zero());
        lemma_contracted(val, t, env, outcome, r, r2, complex_zero());
        lemma_contracted(val, t, env, 0, r, r2, complex_zero());
        lemma_contracted(val, t, env, 1, r, r2, zero_part);
        let parts = |state: int|
            weighed(
                val,
                tensors,
                order,
                position,
                outcome,
                count,
                count - 1,
                with_value(k, label, state),
                r,
                r2,
            );
        assert(parts(0) == parts(0) && parts(1) == parts(1) && parts(outcome) == parts(outcome));
        let whole = environment(tensors, position, outcome, count);
        let sums = |state: int|
            double_total(
                |l: int, l2: int|
                    gaussian_product(
                        held(val, env, t.left as int, l, l2),
                        entry_pairing(val, t, state, r, r2)(l, l2),
                    ),
                n,
            );
        assert(parts(0) == sums(0) && parts(1) == sums(1) && parts(outcome) == sums(outcome));
        assert(held(val, whole, width, r, r2) == val(whole[place]));
        if count - 1 == position {
            assert(whole[place] == contracted(t, env, outcome, place, complex_zero()));
            assert(val(whole[place]) == gaussian_sum(nothing(), sums(outcome)));
            assert(weighed(val, tensors, order, position, outcome, count, count, k, r, r2)
                == parts(outcome));
        } else {
            assert(whole[place] == contracted(t, env, 1, place, zero_part));
            assert(val(zero_part) == gaussian_sum(nothing(), sums(0)));
            assert(val(whole[place]) == gaussian_sum(val(zero_part), sums(1)));
            assert(weighed(val, tensors, order, position, outcome, count, count, k, r, r2)
                == gaussian_sum(parts(0), parts(1)));
        }
    }
}

/// The weight of an outcome, before it is made real, is the sum over all values of the other
/// qubits of the squared moduli of the amplitudes at which the qubit at the position has that
/// value.
pub proof fn law_weights_add_up_squared_moduli(
    val: spec_fn(Complex64) -> Gaussian,
    tensors: Seq<Tensor>,
    order: Seq<usize>,
    position: int,
    outcome: int,
    k: usize,
)
    requires
        is_exact(val),
        reads_conjugates(val),
        tensors.len() > 0,
        shares_bonds(tensors),
        tensors[tensors.len() - 1].right == 1,
        are_labels(order, tensors.len() as int),
        forall|i: int| 0 <= i < tensors.len() ==> (#[trigger] tensors[i]).left >= 1,
        0 <= outcome < 2,
    ensures
        val(environment(tensors, position, outcome, tensors.len() as int)[0]) == probability(
            val,
            tensors,
            order,
            position,
            outcome,
            tensors.len() as int,
            k,
        ),
{
    let n = tensors.len() as int;
    lemma_environment(val, tensors, order, position, outcome, n, k, 0, 0);
    lemma_probability(val, tensors, order, position, outcome, n, k);
}

/// The squared modulus of a complex integer.
pub open spec fn squared(x: Gaussian) -> Gaussian {
    Gaussian { re: x.re * x.re + x.im * x.im, im: 0 }
}

/// The sum of the squared moduli of the amplitudes over all values of the qubits at the first `m`
/// positions, where the qubit at `position` has the value `outcome`.
pub open spec fn probability(
    val: spec_fn(Complex64) -> Gaussian,
    tensors: Seq<Tensor>,
    order: Seq<usize>,
    position: int,
    outcome: int,
    m: int,
    k: usize,
) -> Gaussian
    decreases m,
{
    if m <= 0 {
        squared(val(amplitude(tensors, order, k)))
    } else if m - 1 == position {
        probability(
            val,
            tensors,
            order,
            position,
            outcome,
            m - 1,
            with_value(k, order[m - 1], outcome),
        )
    } else {
        gaussian_sum(
            probability(
                val,
                tensors,
                order,
                position,
                outcome,
                m - 1,
                with_value(k, order[m - 1], 0),
            ),
            probability(
                val,
                tensors,
                order,
                position,
                outcome,
                m - 1,
                with_value(k, order[m - 1], 1),
            ),
        )
    }
}

proof fn lemma_probability(
    val: spec_fn(Complex64) -> Gaussian,
    tensors: Seq<Tensor>,
    order: Seq<usize>,
    position: int,
    outcome: int,
    m: int,
    k: usize,
)
    ensures
        weighed(
            val,
            tensors,
            order,
            position,
            outcome,
            tensors.len() as int,
            m,
            k,
            0,
            0,
        ) == probability(val, tensors, order, position, outcome, m, k),
    decreases m,
{
    if m <= 0 {
        let x = val(amplitude(tensors, order, k));
        assert(x.re * x.re - x.im * (-x.im) == x.re * x.re + x.im * x.im && x.re * (-x.im) + x.im
            * x.re == 0) by (nonlinear_arith);
    } else if m - 1 == position {
        lemma_probability(
            val,
            tensors,
            order,
            position,
            outcome,
            m - 1,
            with_value(k, order[m - 1], outcome),
        );
    } else {
        lemma_probability(
            val,
            tensors,
            order,
            position,
            outcome,
            m - 1,
            with_value(k, order[m - 1], 0),
        );
        lemma_probability(
            val,
            tensors,
            order,
            position,
            outcome,
            m - 1,
            with_value(k, order[m - 1], 1),
        );
    }
}

} // verus!
