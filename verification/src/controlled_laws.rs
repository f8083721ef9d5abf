//! What gates with controls do, in terms of the gates without them.
//!
//! Where a gate is applied by its whole matrix, zeros and ones enter sums and products. The laws
//! are then stated for a reading of numbers: it may forget the sign of a zero, follows addition,
//! and does not tell apart what one and minus one times an amplitude are from the amplitude and
//! its opposite. The numbers themselves are such a reading of all finite amplitudes.

use num_complex::Complex64;
use vstd::prelude::*;

use crate::bits::{
    bit_mask, bit_set, clear_bit, dimension, lemma_bit_ops, lemma_bit_pair, lemma_bits_determine,
    lemma_combine_below, lemma_dimension_step, lemma_mask_below, lemma_mask_bit, lemma_split,
    with_bit,
};
use crate::complex::{
    complex_add, complex_mul, complex_neg, complex_of, complex_one, complex_zero,
};
use crate::engine::{
    all_set, asks_set, controls_hold, cswap_applied, cx_applied, cz_applied, mask_of, mcx_applied,
    one_qubit_applied, swap_applied, Matrix2,
};
use crate::gate_matrix::is_fixed_gate;
use crate::gates::{is_controlled, is_controlled_swap, swap_partner};
use crate::instruction::Kind;
use crate::wide_gate::{
    gate_index, gate_input, gate_offset, lemma_gate_index_below, lemma_gate_offset_inside,
    lemma_offset_of_index, n_qubit_applied, qubits_fit, row_sum,
};

verus! {

/// Whether `val` reads numbers such that sums are followed and zero is neutral.
pub open spec fn is_reading<V>(val: spec_fn(Complex64) -> V, plus: spec_fn(V, V) -> V) -> bool {
    &&& forall|x: Complex64, y: Complex64|
        val(#[trigger] complex_add(x, y)) == plus(val(x), val(y))
    &&& forall|v: V|
        #![trigger plus(val(complex_zero()), v)]
        plus(val(complex_zero()), v) == v
    &&& forall|v: V|
        #![trigger plus(v, val(complex_zero()))]
        plus(v, val(complex_zero())) == v
}

/// Whether an amplitude times one, zero and minus one reads as itself, as zero and as its
/// opposite.
pub open spec fn is_plain<V>(val: spec_fn(Complex64) -> V, x: Complex64) -> bool {
    &&& val(complex_mul(complex_one(), x)) == val(x)
    &&& val(complex_mul(complex_zero(), x)) == val(complex_zero())
    &&& val(complex_mul(complex_of(-1, 0), x)) == val(complex_neg(x))
}

/// Whether the amplitudes of a state are such.
pub open spec fn all_plain<V>(val: spec_fn(Complex64) -> V, s: Seq<Complex64>) -> bool {
    forall|k: int| 0 <= k < s.len() ==> is_plain(val, #[trigger] s[k])
}

/// Whether a row holds zeros, apart from a one in column `j`.
spec fn is_unit_row(row: Seq<Complex64>, cols: int, j: int) -> bool {
    forall|c: int|
        0 <= c < cols ==> #[trigger] row[c] == if c == j {
            complex_one()
        } else {
            complex_zero()
        }
}

proof fn lemma_unit_sum<V>(
    val: spec_fn(Complex64) -> V,
    plus: spec_fn(V, V) -> V,
    row: Seq<Complex64>,
    v: Seq<Complex64>,
    cols: nat,
    j: int,
)
    requires
        is_reading(val, plus),
        is_unit_row(row, cols as int, j),
        cols <= v.len(),
        all_plain(val, v),
    ensures
        val(row_sum(row, v, cols)) == if 0 <= j < cols {
            val(v[j])
        } else {
            val(complex_zero())
        },
    decreases cols,
{
    if cols > 0 {
        lemma_unit_sum(val, plus, row, v, (cols - 1) as nat, j);
        let c = cols - 1;
        assert(is_plain(val, v[c]));
        assert(row[c] == if c == j {
            complex_one()
        } else {
            complex_zero()
        });
        let earlier = row_sum(row, v, (cols - 1) as nat);
        let term = complex_mul(row[c], v[c]);
        assert(val(complex_add(earlier, term)) == plus(val(earlier), val(term)));
    }
}

/// What a gate reads at the index of a basis state that agrees with another one on all other
/// qubits.
proof fn lemma_input_at(s: Seq<Complex64>, i: usize, other: usize, qubits: Seq<usize>)
    requires
        qubits.len() < usize::BITS,
        qubits_fit(qubits, usize::BITS as int),
        i & !mask_of(qubits) == other & !mask_of(qubits),
    ensures
        gate_index(other, qubits) < dimension(qubits.len() as usize),
        gate_input(s, i & !mask_of(qubits), qubits)[gate_index(other, qubits) as int]
            == s[other as int],
{
    lemma_gate_index_below(other, qubits);
    lemma_offset_of_index(other, qubits);
    lemma_split(other, mask_of(qubits));
}

/// A bit of the mask of some qubits.
pub proof fn lemma_mask_of_bit(qubits: Seq<usize>, q: usize)
    requires
        qubits_fit(qubits, usize::BITS as int),
        q < usize::BITS,
    ensures
        bit_set(mask_of(qubits), q) <==> qubits.contains(q),
    decreases qubits.len(),
{
    if qubits.len() == 0 {
        lemma_bit_ops(0, 0, q);
    } else {
        let rest = qubits.drop_last();
        let last = qubits.last();
        assert(qubits[qubits.len() - 1] < usize::BITS);
        assert forall|j: int| 0 <= j < rest.len() implies #[trigger] rest[j] < usize::BITS by {
            assert(qubits[j] < usize::BITS);
        }
        lemma_mask_of_bit(rest, q);
        lemma_bit_ops(mask_of(rest), bit_mask(last), q);
        lemma_mask_bit(last, q);
        if rest.contains(q) {
            let j = choose|j: int| 0 <= j < rest.len() && rest[j] == q;
            assert(qubits[j] == q);
        }
        if qubits.contains(q) && q != last {
            let j = choose|j: int| 0 <= j < qubits.len() && qubits[j] == q;
            assert(rest[j] == q);
        }
        if q == last {
            assert(qubits[qubits.len() - 1] == q);
        }
    }
}

proof fn lemma_not_bit(a: usize, q: usize)
    by (bit_vector)
    requires
        q < usize::BITS,
    ensures
        (!a & (1usize << q) != 0) == (a & (1usize << q) == 0),
{
}

/// Two indices that differ only in given qubits agree on all others.
proof fn lemma_same_outside(i: usize, other: usize, qubits: Seq<usize>)
    requires
        qubits_fit(qubits, usize::BITS as int),
        forall|q: usize|
            q < usize::BITS && !qubits.contains(q) ==> bit_set(i, q) == bit_set(other, q),
    ensures
        i & !mask_of(qubits) == other & !mask_of(qubits),
{
    let mask = mask_of(qubits);
    assert forall|q: usize| q < usize::BITS implies bit_set(i & !mask, q) == bit_set(
        other & !mask,
        q,
    ) by {
        lemma_bit_ops(i, !mask, q);
        lemma_bit_ops(other, !mask, q);
        lemma_not_bit(mask, q);
        lemma_mask_of_bit(qubits, q);
    }
    lemma_bits_determine(i & !mask, other & !mask);
}

/// A gate whose row for a basis state holds a single one gives the amplitude that the one stands
/// for.
proof fn lemma_moved_amplitude<V>(
    val: spec_fn(Complex64) -> V,
    plus: spec_fn(V, V) -> V,
    s: Seq<Complex64>,
    rows: Seq<Vec<Complex64>>,
    qubits: Seq<usize>,
    n: usize,
    i: usize,
    other: usize,
)
    requires
        is_reading(val, plus),
        all_plain(val, s),
        n < usize::BITS,
        i < dimension(n) <= s.len(),
        qubits.len() < usize::BITS,
        qubits_fit(qubits, n as int),
        i & !mask_of(qubits) == other & !mask_of(qubits),
        is_unit_row(
            rows[gate_index(i, qubits) as int]@,
            dimension(qubits.len() as usize) as int,
            gate_index(other, qubits) as int,
        ),
    ensures
        val(n_qubit_applied(s, rows, qubits, n)[i as int]) == val(s[other as int]),
{
    let base = i & !mask_of(qubits);
    let v = gate_input(s, base, qubits);
    let dim = dimension(qubits.len() as usize) as nat;
    lemma_input_at(s, i, other, qubits);
    assert forall|k: int| 0 <= k < v.len() implies is_plain(val, #[trigger] v[k]) by {
        lemma_input_inside(s, i, qubits, n, k as nat);
    }
    lemma_unit_sum(
        val,
        plus,
        rows[gate_index(i, qubits) as int]@,
        v,
        dim,
        gate_index(other, qubits) as int,
    );
}

proof fn lemma_input_inside(s: Seq<Complex64>, i: usize, qubits: Seq<usize>, n: usize, j: nat)
    requires
        n < usize::BITS,
        i < dimension(n) <= s.len(),
        qubits_fit(qubits, n as int),
    ensures
        (i & !mask_of(qubits)) | gate_offset(j, qubits) < dimension(n),
{
    lemma_gate_offset_inside(j, qubits, n);
    lemma_split(i, mask_of(qubits));
    lemma_combine_below(
        i & !mask_of(qubits),
        gate_offset(j, qubits),
        n,
    );
}

proof fn lemma_index_of_set(i: usize, controls: Seq<usize>)
    requires
        controls.len() < usize::BITS,
    ensures
        all_set(i, controls) <==> gate_index(i, controls) == dimension(controls.len() as usize) - 1,
    decreases controls.len(),
{
    if controls.len() == 0 {
        lemma_dimension_step(0);
    } else {
        let rest = controls.drop_last();
        lemma_index_of_set(i, rest);
        lemma_gate_index_below(i, rest);
        lemma_dimension_step((controls.len() - 1) as usize);
        assert(all_set(i, controls) <==> all_set(i, rest) && bit_set(i, controls.last())) by {
            if all_set(i, rest) && bit_set(i, controls.last()) {
                assert forall|j: int| 0 <= j < controls.len() implies bit_set(
                    i,
                    #[trigger] controls[j],
                ) by {
                    if j < rest.len() {
                        assert(bit_set(i, rest[j]));
                    }
                }
            }
            if all_set(i, controls) {
                assert forall|j: int| 0 <= j < rest.len() implies bit_set(i, #[trigger] rest[j]) by {
                    assert(bit_set(i, controls[j]));
                }
                assert(bit_set(i, controls[controls.len() - 1]));
            }
        }
    }
}

/// The controls that some qubits are when all of them must be set.
pub open spec fn set_wires(controls: Seq<usize>) -> Seq<(usize, bool)> {
    controls.map_values(|q: usize| (q, true))
}

/// Clearing or setting another bit does not change whether controls are set.
proof fn lemma_controls_hold(k: usize, target: usize, controls: Seq<usize>)
    requires
        target < usize::BITS,
        qubits_fit(controls, usize::BITS as int),
        !controls.contains(target),
    ensures
        controls_hold(clear_bit(k, target), set_wires(controls)) == all_set(k, controls),
        all_set(clear_bit(k, target), controls) == all_set(k, controls),
        all_set(with_bit(k, target), controls) == all_set(k, controls),
{
    let wires = set_wires(controls);
    let low = clear_bit(k, target);
    let high = with_bit(k, target);
    assert forall|j: int| 0 <= j < controls.len() implies bit_set(low, #[trigger] controls[j])
        == bit_set(k, controls[j]) && bit_set(high, controls[j]) == bit_set(k, controls[j]) by {
        assert(controls[j] != target);
        assert(controls[j] < usize::BITS);
        lemma_bit_ops(k, !bit_mask(target), controls[j]);
        lemma_bit_ops(k, bit_mask(target), controls[j]);
        lemma_not_bit(bit_mask(target), controls[j]);
        lemma_mask_bit(target, controls[j]);
    }
    assert forall|j: int| 0 <= j < wires.len() implies asks_set(
        wires,
        (#[trigger] wires[j]).0,
    ) by {
        assert(wires[j] == (controls[j], true));
    }
    if all_set(k, controls) {
        assert forall|j: int| 0 <= j < wires.len() implies bit_set(low, (#[trigger] wires[j]).0)
            == asks_set(wires, wires[j].0) by {
            assert(bit_set(k, controls[j]));
        }
    } else {
        let j = choose|j: int| 0 <= j < controls.len() && !bit_set(k, #[trigger] controls[j]);
        assert(wires[j].0 == controls[j]);
        assert(!bit_set(low, wires[j].0));
    }
    if all_set(low, controls) {
        assert forall|j: int| 0 <= j < controls.len() implies bit_set(k, #[trigger] controls[j]) by {
            assert(bit_set(low, controls[j]));
        }
    }
    if all_set(high, controls) {
        assert forall|j: int| 0 <= j < controls.len() implies bit_set(k, #[trigger] controls[j]) by {
            assert(bit_set(high, controls[j]));
        }
    }
}

/// A gate with controls acts on the amplitudes at which all controls are set as it does without
/// controls, and leaves all others alone.
pub proof fn law_controls_guard_the_gate(
    s: Seq<Complex64>,
    u: Matrix2,
    target: usize,
    n: usize,
    controls: Seq<usize>,
    k: usize,
)
    requires
        n < usize::BITS,
        target < n,
        k < dimension(n) <= s.len(),
        qubits_fit(controls, usize::BITS as int),
        !controls.contains(target),
    ensures
        one_qubit_applied(s, u, target, n, set_wires(controls))[k as int] == if all_set(
            k,
            controls,
        ) {
            one_qubit_applied(s, u, target, n, Seq::empty())[k as int]
        } else {
            s[k as int]
        },
{
    lemma_controls_hold(k, target, controls);
    assert(controls_hold(clear_bit(k, target), Seq::empty()));
}

proof fn lemma_controlled_sum<V>(
    val: spec_fn(Complex64) -> V,
    plus: spec_fn(V, V) -> V,
    row: Seq<Complex64>,
    v: Seq<Complex64>,
    dim: nat,
)
    requires
        is_reading(val, plus),
        all_plain(val, v),
        dim >= 2,
        dim <= v.len(),
        forall|c: int| 0 <= c < dim - 2 ==> #[trigger] row[c] == complex_zero(),
    ensures
        val(row_sum(row, v, dim)) == val(
            complex_add(
                complex_mul(row[dim - 2], v[dim - 2]),
                complex_mul(row[dim - 1], v[dim - 1]),
            ),
        ),
{
    let zeros = row_sum(row, v, (dim - 2) as nat);
    lemma_unit_sum(val, plus, row, v, (dim - 2) as nat, -1);
    let first = complex_mul(row[dim - 2], v[dim - 2]);
    let second = complex_mul(row[dim - 1], v[dim - 1]);
    let middle = row_sum(row, v, (dim - 1) as nat);
    assert(middle == complex_add(zeros, first));
    assert(row_sum(row, v, dim) == complex_add(middle, second));
    assert(val(middle) == plus(val(zeros), val(first)));
    assert(val(complex_add(middle, second)) == plus(val(middle), val(second)));
    assert(val(complex_add(first, second)) == plus(val(first), val(second)));
}

/// The whole matrix of a controlled gate acts as a gate on its target does, guarded by the
/// controls: the controls come first among the qubits, the target comes last.
pub proof fn law_controlled_matrix_acts_as_guarded_gate<V>(
    val: spec_fn(Complex64) -> V,
    plus: spec_fn(V, V) -> V,
    s: Seq<Complex64>,
    rows: Seq<Vec<Complex64>>,
    u: Matrix2,
    controls: Seq<usize>,
    target: usize,
    n: usize,
    k: usize,
)
    requires
        is_reading(val, plus),
        all_plain(val, s),
        n < usize::BITS,
        target < n,
        k < dimension(n) <= s.len(),
        controls.len() + 1 < usize::BITS,
        qubits_fit(controls, n as int),
        !controls.contains(target),
        is_controlled(rows, controls.len(), u),
    ensures
        val(n_qubit_applied(s, rows, controls.push(target), n)[k as int]) == val(
            one_qubit_applied(s, u, target, n, set_wires(controls))[k as int],
        ),
{
    let qubits = controls.push(target);
    let dim = dimension(qubits.len() as usize) as nat;
    let low = clear_bit(k, target);
    let high = with_bit(k, target);
    assert(qubits.drop_last() =~= controls);
    assert(qubits.last() == target);
    assert forall|j: int| 0 <= j < qubits.len() implies #[trigger] qubits[j] < n by {
        if j < controls.len() {
            assert(controls[j] < n);
        }
    }
    assert(qubits_fit(controls, usize::BITS as int)) by {
        assert forall|j: int| 0 <= j < controls.len() implies #[trigger] controls[j]
            < usize::BITS by {
            assert(controls[j] < n);
        }
    }
    assert(qubits_fit(qubits, usize::BITS as int)) by {
        assert forall|j: int| 0 <= j < qubits.len() implies #[trigger] qubits[j] < usize::BITS by {
            assert(qubits[j] < n);
        }
    }
    lemma_dimension_step(controls.len() as usize);
    lemma_index_of_set(k, controls);
    lemma_gate_index_below(k, controls);
    lemma_gate_index_below(k, qubits);
    lemma_controls_hold(k, target, controls);
    lemma_bit_pair(k, target);
    let index = gate_index(k, qubits) as int;
    let row = rows[index]@;
    if all_set(k, controls) {
        assert forall|q: usize| q < usize::BITS && !qubits.contains(q) implies bit_set(k, q)
            == bit_set(low, q) && bit_set(k, q) == bit_set(high, q) by {
            assert(qubits[qubits.len() - 1] == target);
            lemma_bit_ops(k, !bit_mask(target), q);
            lemma_bit_ops(k, bit_mask(target), q);
            lemma_not_bit(bit_mask(target), q);
            lemma_mask_bit(target, q);
        }
        lemma_same_outside(k, low, qubits);
        lemma_same_outside(k, high, qubits);
        lemma_input_at(s, k, low, qubits);
        lemma_input_at(s, k, high, qubits);
        lemma_index_of_set(low, controls);
        lemma_index_of_set(high, controls);
        assert(gate_index(low, qubits) == dim - 2);
        assert(gate_index(high, qubits) == dim - 1);
        let v = gate_input(s, k & !mask_of(qubits), qubits);
        assert forall|j: int| 0 <= j < v.len() implies is_plain(val, #[trigger] v[j]) by {
            lemma_input_inside(s, k, qubits, n, j as nat);
        }
        assert forall|c: int| 0 <= c < dim - 2 implies #[trigger] row[c] == complex_zero() by {}
        lemma_controlled_sum(val, plus, row, v, dim);
    } else {
        assert(index < dim - 2);
        assert(is_unit_row(row, dim as int, index)) by {
            assert forall|c: int| 0 <= c < dim implies #[trigger] row[c] == if c == index {
                complex_one()
            } else {
                complex_zero()
            } by {}
        }
        lemma_moved_amplitude(val, plus, s, rows, qubits, n, k, k);
    }
}

/// The amplitude with the target flipped.
proof fn lemma_flipped(k: usize, target: usize, n: usize)
    requires
        n < usize::BITS,
        target < n,
        k < dimension(n),
    ensures
        k ^ bit_mask(target) < dimension(n),
        bit_set(k, target) ==> k ^ bit_mask(target) == clear_bit(k, target),
        !bit_set(k, target) ==> k ^ bit_mask(target) == with_bit(k, target),
        bit_set(k, target) ==> with_bit(k, target) == k,
        !bit_set(k, target) ==> clear_bit(k, target) == k,
        clear_bit(k, target) < dimension(n),
        with_bit(k, target) < dimension(n),
{
    lemma_mask_below(target, n);
    lemma_combine_below(k, bit_mask(target), n);
    lemma_bit_pair(k, target);
    lemma_flip_forms(k, target);
}

proof fn lemma_flip_forms(k: usize, q: usize)
    by (bit_vector)
    requires
        q < usize::BITS,
    ensures
        k & (1usize << q) != 0 ==> k ^ (1usize << q) == k & !(1usize << q),
        k & (1usize << q) == 0 ==> k ^ (1usize << q) == k | (1usize << q),
{
}

/// An X gate exchanges the amplitudes that differ in its qubit.
pub proof fn law_x_gate_exchanges_amplitudes<V>(
    val: spec_fn(Complex64) -> V,
    plus: spec_fn(V, V) -> V,
    s: Seq<Complex64>,
    x: Matrix2,
    target: usize,
    n: usize,
    k: usize,
)
    requires
        is_reading(val, plus),
        all_plain(val, s),
        n < usize::BITS,
        target < n,
        k < dimension(n) <= s.len(),
        is_fixed_gate(Kind::X, x),
    ensures
        val(one_qubit_applied(s, x, target, n, Seq::empty())[k as int]) == val(
            s[(k ^ bit_mask(target)) as int],
        ),
{
    lemma_flipped(k, target, n);
    assert(controls_hold(clear_bit(k, target), Seq::empty()));
    let a = s[clear_bit(k, target) as int];
    let b = s[with_bit(k, target) as int];
    assert(is_plain(val, a) && is_plain(val, b));
    let (zero_a, one_b) = (complex_mul(complex_zero(), a), complex_mul(complex_one(), b));
    let (one_a, zero_b) = (complex_mul(complex_one(), a), complex_mul(complex_zero(), b));
    assert(val(complex_add(zero_a, one_b)) == plus(val(zero_a), val(one_b)));
    assert(val(complex_add(one_a, zero_b)) == plus(val(one_a), val(zero_b)));
}

/// A Z gate negates the amplitudes at which its qubit is set, and leaves the others alone.
pub proof fn law_z_gate_negates_amplitudes<V>(
    val: spec_fn(Complex64) -> V,
    plus: spec_fn(V, V) -> V,
    s: Seq<Complex64>,
    z: Matrix2,
    target: usize,
    n: usize,
    k: usize,
)
    requires
        is_reading(val, plus),
        all_plain(val, s),
        n < usize::BITS,
        target < n,
        k < dimension(n) <= s.len(),
        is_fixed_gate(Kind::Z, z),
    ensures
        val(one_qubit_applied(s, z, target, n, Seq::empty())[k as int]) == val(
            if bit_set(k, target) {
                complex_neg(s[k as int])
            } else {
                s[k as int]
            },
        ),
{
    lemma_flipped(k, target, n);
    assert(controls_hold(clear_bit(k, target), Seq::empty()));
    let a = s[clear_bit(k, target) as int];
    let b = s[with_bit(k, target) as int];
    assert(is_plain(val, a) && is_plain(val, b));
    let (one_a, zero_b) = (complex_mul(complex_one(), a), complex_mul(complex_zero(), b));
    let (zero_a, minus_b) = (complex_mul(complex_zero(), a), complex_mul(complex_of(-1, 0), b));
    assert(val(complex_add(one_a, zero_b)) == plus(val(one_a), val(zero_b)));
    assert(val(complex_add(zero_a, minus_b)) == plus(val(zero_a), val(minus_b)));
}

/// The kernel of a NOT with controls acts as an X gate that the controls guard.
pub proof fn law_x_kernels_act_as_guarded_x<V>(
    val: spec_fn(Complex64) -> V,
    plus: spec_fn(V, V) -> V,
    s: Seq<Complex64>,
    x: Matrix2,
    controls: Seq<usize>,
    target: usize,
    n: usize,
    k: usize,
)
    requires
        is_reading(val, plus),
        all_plain(val, s),
        n < usize::BITS,
        target < n,
        k < dimension(n) <= s.len(),
        qubits_fit(controls, usize::BITS as int),
        !controls.contains(target),
        is_fixed_gate(Kind::X, x),
    ensures
        val(mcx_applied(s, n, controls, target)[k as int]) == val(
            one_qubit_applied(s, x, target, n, set_wires(controls))[k as int],
        ),
        controls.len() == 1 ==> cx_applied(s, n, controls[0], target)[k as int] == mcx_applied(
            s,
            n,
            controls,
            target,
        )[k as int],
{
    law_controls_guard_the_gate(s, x, target, n, controls, k);
    law_x_gate_exchanges_amplitudes(val, plus, s, x, target, n, k);
    if controls.len() == 1 {
        assert(controls[0] != target);
        assert(all_set(k, controls) <==> bit_set(k, controls[0]));
    }
}

/// The kernel of a controlled Z acts as a Z gate that the control guards.
pub proof fn law_cz_kernel_acts_as_guarded_z<V>(
    val: spec_fn(Complex64) -> V,
    plus: spec_fn(V, V) -> V,
    s: Seq<Complex64>,
    z: Matrix2,
    control: usize,
    target: usize,
    n: usize,
    k: usize,
)
    requires
        is_reading(val, plus),
        all_plain(val, s),
        n < usize::BITS,
        target < n,
        control < usize::BITS,
        control != target,
        k < dimension(n) <= s.len(),
        is_fixed_gate(Kind::Z, z),
    ensures
        val(cz_applied(s, n, control, target)[k as int]) == val(
            one_qubit_applied(s, z, target, n, set_wires(seq![control]))[k as int],
        ),
{
    let controls = seq![control];
    assert(!controls.contains(target));
    assert(qubits_fit(controls, usize::BITS as int));
    law_controls_guard_the_gate(s, z, target, n, controls, k);
    law_z_gate_negates_amplitudes(val, plus, s, z, target, n, k);
    assert(all_set(k, controls) <==> bit_set(k, control)) by {
        if all_set(k, controls) {
            assert(bit_set(k, controls[0]));
        }
    }
}

proof fn lemma_exchanged_bits(k: usize, a: usize, b: usize, q: usize)
    requires
        a < usize::BITS,
        b < usize::BITS,
        q < usize::BITS,
        a != b,
    ensures
        bit_set(k ^ (bit_mask(a) | bit_mask(b)), q) == (bit_set(k, q) != (q == a || q == b)),
{
    lemma_bit_ops(k, bit_mask(a) | bit_mask(b), q);
    lemma_bit_ops(bit_mask(a), bit_mask(b), q);
    lemma_mask_bit(a, q);
    lemma_mask_bit(b, q);
}

/// The index of a basis state for some controls and two qubits after them.
proof fn lemma_index_of_pair(k: usize, controls: Seq<usize>, a: usize, b: usize)
    ensures
        gate_index(k, controls.push(a).push(b)) == 4 * gate_index(k, controls) + (if bit_set(k, a) {
            2nat
        } else {
            0nat
        }) + (if bit_set(k, b) {
            1nat
        } else {
            0nat
        }),
{
    let first = controls.push(a);
    let both = first.push(b);
    assert(both.drop_last() =~= first);
    assert(first.drop_last() =~= controls);
    assert(gate_index(k, first) == 2 * gate_index(k, controls) + if bit_set(k, a) {
        1nat
    } else {
        0nat
    });
    assert(gate_index(k, both) == 2 * gate_index(k, first) + if bit_set(k, b) {
        1nat
    } else {
        0nat
    });
}

/// The whole matrix of a SWAP, with or without controls before its two qubits, exchanges the
/// values of the two qubits where all controls are set, and leaves all other amplitudes alone.
pub proof fn law_swap_matrix_exchanges_qubits<V>(
    val: spec_fn(Complex64) -> V,
    plus: spec_fn(V, V) -> V,
    s: Seq<Complex64>,
    rows: Seq<Vec<Complex64>>,
    controls: Seq<usize>,
    a: usize,
    b: usize,
    n: usize,
    k: usize,
)
    requires
        is_reading(val, plus),
        all_plain(val, s),
        n < usize::BITS,
        a < n,
        b < n,
        a != b,
        k < dimension(n) <= s.len(),
        controls.len() + 2 < usize::BITS,
        qubits_fit(controls, n as int),
        !controls.contains(a),
        !controls.contains(b),
        is_controlled_swap(rows, controls.len()),
    ensures
        val(n_qubit_applied(s, rows, controls.push(a).push(b), n)[k as int]) == val(
            if all_set(k, controls) && bit_set(k, a) != bit_set(k, b) {
                s[(k ^ (bit_mask(a) | bit_mask(b))) as int]
            } else {
                s[k as int]
            },
        ),
        controls.len() == 0 ==> val(n_qubit_applied(s, rows, seq![a, b], n)[k as int]) == val(
            swap_applied(s, n, a, b)[k as int],
        ),
        controls.len() == 1 ==> val(
            n_qubit_applied(s, rows, seq![controls[0], a, b], n)[k as int],
        ) == val(cswap_applied(s, n, controls[0], a, b)[k as int]),
{
    let qubits = controls.push(a).push(b);
    let other = k ^ (bit_mask(a) | bit_mask(b));
    let dim = dimension(qubits.len() as usize) as nat;
    assert(qubits.drop_last() =~= controls.push(a));
    assert(controls.push(a).drop_last() =~= controls);
    assert forall|j: int| 0 <= j < qubits.len() implies #[trigger] qubits[j] < n by {
        if j < controls.len() {
            assert(controls[j] < n);
        }
    }
    assert(qubits_fit(qubits, usize::BITS as int)) by {
        assert forall|j: int| 0 <= j < qubits.len() implies #[trigger] qubits[j] < usize::BITS by {
            assert(qubits[j] < n);
        }
    }
    lemma_dimension_step(controls.len() as usize);
    lemma_dimension_step((controls.len() + 1) as usize);
    lemma_index_of_set(k, controls);
    lemma_index_of_set(other, controls);
    lemma_gate_index_below(k, controls);
    lemma_gate_index_below(k, qubits);
    assert(qubits[controls.len() as int] == a);
    assert(qubits[controls.len() as int + 1] == b);
    lemma_exchanged_bits(k, a, b, a);
    lemma_exchanged_bits(k, a, b, b);
    lemma_index_of_pair(k, controls, a, b);
    lemma_index_of_pair(other, controls, a, b);
    let index = gate_index(k, qubits) as int;
    let row = rows[index]@;
    assert(dim == 4 * dimension(controls.len() as usize));
    if all_set(k, controls) && bit_set(k, a) != bit_set(k, b) {
        assert forall|q: usize| q < usize::BITS && !qubits.contains(q) implies bit_set(k, q)
            == bit_set(other, q) by {
            lemma_exchanged_bits(k, a, b, q);
        }
        lemma_same_outside(k, other, qubits);
        assert forall|j: int| 0 <= j < controls.len() implies bit_set(
            other,
            #[trigger] controls[j],
        ) by {
            assert(controls[j] < n);
            assert(bit_set(k, controls[j]));
            lemma_exchanged_bits(k, a, b, controls[j]);
        }
        let there = gate_index(other, qubits) as int;
        assert(there == swap_partner(dim as int, index));
        assert(is_unit_row(row, dim as int, there)) by {
            assert forall|c: int| 0 <= c < dim implies #[trigger] row[c] == if c == there {
                complex_one()
            } else {
                complex_zero()
            } by {}
        }
        lemma_moved_amplitude(val, plus, s, rows, qubits, n, k, other);
    } else {
        assert(index == swap_partner(dim as int, index));
        assert(is_unit_row(row, dim as int, index)) by {
            assert forall|c: int| 0 <= c < dim implies #[trigger] row[c] == if c == index {
                complex_one()
            } else {
                complex_zero()
            } by {}
        }
        lemma_moved_amplitude(val, plus, s, rows, qubits, n, k, k);
    }
    if controls.len() == 0 {
        assert(qubits =~= seq![a, b]);
    }
    if controls.len() == 1 {
        assert(qubits =~= seq![controls[0], a, b]);
        assert(controls[0] != a && controls[0] != b);
        assert(all_set(k, controls) <==> bit_set(k, controls[0]));
    }
}

} // verus!
