//! What samples and overlaps of states stand for.

use num_complex::Complex64;
use vstd::prelude::*;

use crate::bits::{bit_mask, bit_set, lemma_bit_ops};
use crate::complex::{
    complex_add, complex_conj, complex_mul, complex_norm_sqr, complex_of, complex_one,
    complex_zero, real_div, real_less,
};
use crate::exact_laws::{is_exact, nothing, total};
use crate::flow_laws::law_index_bits_are_values;
use crate::measure::marginal_weight;
use crate::mps::Mps;
use crate::mps_shots::{agreeing_sum, fixed_after, samples_one, sequential_values, FixedBits};
use crate::mps_state::{finds_one, outcome_weight};
use crate::random::drawn_unit;
use crate::sampling::is_sample;
use crate::stabilizer_laws::{gaussian_sum, Gaussian};
use crate::statevector_shots::overlap;
use crate::terminal::{weights, TerminalMeasurement};
use crate::text::{binary_text, bit_char};
use crate::weight_laws::{reads_conjugates, squared};
use crate::wide_gate::gate_index;

verus! {

/// The digits of a sampled outcome are the values of the sampled qubits, in their order.
pub proof fn law_sampled_digits_are_values(basis: usize, qubits: Seq<usize>, m: int)
    requires
        qubits.len() < usize::BITS,
        0 <= m < qubits.len(),
    ensures
        binary_text(gate_index(basis, qubits) as usize, qubits.len())[m] == bit_char(
            bit_set(basis, qubits[m]),
        ),
{
    law_index_bits_are_values(basis, qubits, m);
}

/// A place at which the distribution does not rise is never selected, unless it is the first or
/// the last one.
pub proof fn law_places_without_weight_are_not_sampled(
    cdf: Seq<Complex64>,
    r: Complex64,
    idx: int,
)
    requires
        0 < idx < cdf.len() - 1,
        cdf[idx] == cdf[idx - 1],
    ensures
        !is_sample(cdf, r, idx),
{
}

proof fn lemma_no_mask(basis: usize)
    by (bit_vector)
    ensures
        basis & 0 == 0,
{
}

/// What the first measurement of a shot compares are the weights that the distribution of its
/// qubit gives to its two values.
pub proof fn law_first_sample_follows_the_distribution(
    state: Seq<Complex64>,
    qubit: usize,
    set: bool,
    count: int,
)
    requires
        0 <= count <= state.len(),
    ensures
        agreeing_sum(weights(state), 0, 0, bit_mask(qubit), set, count) == marginal_weight(
            state,
            seq![qubit],
            (if set {
                1nat
            } else {
                0nat
            }),
            count as nat,
        ),
    decreases count,
{
    if count > 0 {
        law_first_sample_follows_the_distribution(state, qubit, set, count - 1);
        let basis = (count - 1) as usize;
        lemma_no_mask(basis);
        assert(seq![qubit].drop_last() =~= Seq::<usize>::empty());
        assert(gate_index(basis, Seq::<usize>::empty()) == 0);
        assert(gate_index(basis, seq![qubit]) == if bit_set(basis, qubit) {
            1nat
        } else {
            0nat
        });
        assert(weights(state)[count - 1] == complex_norm_sqr(state[count - 1]));
    }
}

/// Whether a qubit is among the first `count` that are measured.
pub open spec fn measured_before(
    measurements: Seq<TerminalMeasurement>,
    count: int,
    q: usize,
) -> bool {
    exists|i: int| 0 <= i < count && (#[trigger] measurements[i]).qubit == q
}

proof fn lemma_bits_fixed(mask: usize, value: usize, last: usize, q: usize)
    by (bit_vector)
    requires
        q < usize::BITS,
        last < usize::BITS,
    ensures
        ((mask | (1usize << last)) & (1usize << q) != 0) == (mask & (1usize << q) != 0 || q
            == last),
        ((value | (1usize << last)) & (1usize << q) != 0) == (value & (1usize << q) != 0 || q
            == last),
        ((value & !(1usize << last)) & (1usize << q) != 0) == (value & (1usize << q) != 0 && q
            != last),
{
}

/// One measurement fixes its own qubit to what was read, and leaves the others as they were.
proof fn lemma_fixed_step(
    probabilities: Seq<Complex64>,
    measurements: Seq<TerminalMeasurement>,
    seed: u64,
    count: int,
    q: usize,
)
    requires
        0 < count <= measurements.len(),
        q < usize::BITS,
        measurements[count - 1].qubit < usize::BITS,
    ensures
        ({
            let before = fixed_after(probabilities, measurements, seed, count - 1);
            let at = fixed_after(probabilities, measurements, seed, count);
            let own = q == measurements[count - 1].qubit;
            &&& bit_set(at.mask, q) == (bit_set(before.mask, q) || own)
            &&& own ==> bit_set(at.value, q) == sequential_values(
                probabilities,
                measurements,
                seed,
            )(count - 1)
            &&& !own ==> bit_set(at.value, q) == bit_set(before.value, q)
        }),
{
    let before = fixed_after(probabilities, measurements, seed, count - 1);
    lemma_bits_fixed(before.mask, before.value, measurements[count - 1].qubit, q);
}

/// Within a shot, exactly the qubits that were measured are fixed, and nothing is fixed to 1 that
/// was not measured.
pub proof fn law_samples_fix_what_was_measured(
    probabilities: Seq<Complex64>,
    measurements: Seq<TerminalMeasurement>,
    seed: u64,
    count: int,
    q: usize,
)
    requires
        0 <= count <= measurements.len(),
        q < usize::BITS,
        forall|i: int|
            0 <= i < measurements.len() ==> (#[trigger] measurements[i]).qubit < usize::BITS,
    ensures
        ({
            let at = fixed_after(probabilities, measurements, seed, count);
            &&& bit_set(at.mask, q) <==> measured_before(measurements, count, q)
            &&& bit_set(at.value, q) ==> bit_set(at.mask, q)
        }),
    decreases count,
{
    if count == 0 {
        lemma_bit_ops(0, 0, q);
    } else {
        law_samples_fix_what_was_measured(probabilities, measurements, seed, count - 1, q);
        lemma_fixed_step(probabilities, measurements, seed, count, q);
        if measured_before(measurements, count - 1, q) {
            let i = choose|i: int|
                0 <= i < count - 1 && (#[trigger] measurements[i]).qubit == q;
            assert(measurements[i].qubit == q);
        }
        if measurements[count - 1].qubit == q {
            assert(measured_before(measurements, count, q));
        }
    }
}

/// Within a shot, a qubit stays fixed to the value that it was last read with.
pub proof fn law_samples_keep_what_was_read(
    probabilities: Seq<Complex64>,
    measurements: Seq<TerminalMeasurement>,
    seed: u64,
    i: int,
    count: int,
)
    requires
        0 <= i < count <= measurements.len(),
        forall|j: int|
            0 <= j < measurements.len() ==> (#[trigger] measurements[j]).qubit < usize::BITS,
        forall|j: int|
            i < j < count ==> (#[trigger] measurements[j]).qubit != measurements[i].qubit,
    ensures
        bit_set(
            fixed_after(probabilities, measurements, seed, count).value,
            measurements[i].qubit,
        ) == sequential_values(probabilities, measurements, seed)(i),
    decreases count,
{
    lemma_fixed_step(probabilities, measurements, seed, count, measurements[i].qubit);
    if i < count - 1 {
        law_samples_keep_what_was_read(probabilities, measurements, seed, i, count - 1);
        assert(measurements[count - 1].qubit != measurements[i].qubit);
    }
}

/// Whether two weights leave only one value: the other one has no weight, and the arithmetic on
/// the weight that is left is that of numbers.
pub open spec fn only_value(weight0: Complex64, weight1: Complex64, one: bool) -> bool {
    if one {
        &&& weight0 == complex_zero()
        &&& complex_add(weight0, weight1) == weight1
        &&& real_less(complex_zero(), weight1)
        &&& real_div(weight1, weight1) == complex_one()
        &&& !real_less(complex_one(), complex_zero())
        &&& !real_less(complex_one(), complex_one())
    } else {
        &&& weight1 == complex_zero()
        &&& complex_add(weight0, weight1) == weight0
        &&& real_div(complex_zero(), weight0) == complex_zero()
        &&& !real_less(complex_one(), complex_zero())
    }
}

/// A value that alone has weight is read, by a sampled measurement and by one of a matrix product
/// state, whatever number from 0 up to 1 is drawn.
pub proof fn law_certain_values_are_read(
    probabilities: Seq<Complex64>,
    at: FixedBits,
    mps: Mps,
    qubit: usize,
    one: bool,
)
    requires
        !real_less(drawn_unit(at.rng).0, complex_zero()),
        real_less(drawn_unit(at.rng).0, complex_one()),
    ensures
        ({
            let count = probabilities.len() as int;
            only_value(
                agreeing_sum(probabilities, at.mask, at.value, bit_mask(qubit), false, count),
                agreeing_sum(probabilities, at.mask, at.value, bit_mask(qubit), true, count),
                one,
            ) ==> samples_one(probabilities, at, qubit) == one
        }),
        ({
            let position = mps.logical_to_position@[qubit as int] as int;
            only_value(
                outcome_weight(mps.tensors@, position, 0),
                outcome_weight(mps.tensors@, position, 1),
                one,
            ) ==> finds_one(mps, qubit as int, at.rng) == one
        }),
{
}

/// Once a qubit is fixed within a shot, its other value has no weight any more.
pub proof fn law_fixed_values_exclude_the_others(
    probabilities: Seq<Complex64>,
    at: FixedBits,
    q: usize,
    count: int,
)
    requires
        q < usize::BITS,
        bit_set(at.mask, q),
        0 <= count <= probabilities.len() <= usize::MAX,
    ensures
        agreeing_sum(
            probabilities,
            at.mask,
            at.value,
            bit_mask(q),
            !bit_set(at.value, q),
            count,
        ) == complex_zero(),
    decreases count,
{
    if count > 0 {
        law_fixed_values_exclude_the_others(probabilities, at, q, count - 1);
        lemma_bit_ops((count - 1) as usize, at.mask, q);
    }
}

/// The overlap of a state with itself is the sum of the squared moduli of its amplitudes.
pub proof fn law_overlap_with_itself_is_the_norm(
    val: spec_fn(Complex64) -> Gaussian,
    s: Seq<Complex64>,
    count: nat,
)
    requires
        is_exact(val),
        reads_conjugates(val),
    ensures
        val(overlap(s, s, count)) == total(|i: int| squared(val(s[i])), count as int),
    decreases count,
{
    assert(val(complex_of(0, 0)) == nothing());
    if count > 0 {
        law_overlap_with_itself_is_the_norm(val, s, (count - 1) as nat);
        let x = s[count - 1];
        let earlier = overlap(s, s, (count - 1) as nat);
        let term = complex_mul(complex_conj(x), x);
        assert(val(complex_add(earlier, term)) == gaussian_sum(val(earlier), val(term)));
        let v = val(x);
        assert(val(complex_conj(x)) == (Gaussian { re: v.re, im: -v.im }));
        assert(v.re * v.re - (-v.im) * v.im == v.re * v.re + v.im * v.im && v.re * v.im + (-v.im)
            * v.re == 0) by (nonlinear_arith);
        assert(val(term) == squared(v));
    }
}

} // verus!
