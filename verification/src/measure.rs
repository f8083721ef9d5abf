//! Measurement of a state vector.

use num_complex::Complex64;
use rand_chacha::ChaCha8Rng;
use vstd::prelude::*;

use crate::bits::{bit_mask, bit_set, dimension, lemma_dimension_step};
use crate::complex::{
    add_complex, complex_add, complex_norm_sqr, complex_one, complex_sub, complex_unscale,
    complex_zero, larger_real, less_real, norm_sqr_complex, one, real_less, real_max, real_sqrt,
    sqrt_real, sub_complex, tiny, tiny_real, unscale_complex, zero,
};
use crate::random::{draw_unit, drawn_unit};
use crate::wide_gate::{gate_index, lemma_gate_index_below, qubits_fit};

verus! {

/// The sum of the squared moduli of those among the first `count` amplitudes whose bit
/// `qubit` is set, added up in index order.
pub open spec fn weight_one(s: Seq<Complex64>, qubit: usize, count: nat) -> Complex64
    decreases count,
{
    if count == 0 {
        complex_zero()
    } else {
        let rest = weight_one(s, qubit, (count - 1) as nat);
        if bit_set((count - 1) as usize, qubit) {
            complex_add(rest, complex_norm_sqr(s[count - 1]))
        } else {
            rest
        }
    }
}

/// The probability of reading 1 from `qubit`.
pub open spec fn probability_one(s: Seq<Complex64>, qubit: usize, n: usize) -> Complex64 {
    weight_one(s, qubit, dimension(n) as nat)
}

/// The number by which the surviving amplitudes are divided, never below `1e-15`.
pub open spec fn survivor_norm(p1: Complex64, outcome: bool) -> Complex64 {
    let weight = if outcome {
        p1
    } else {
        real_max(complex_sub(complex_one(), p1), complex_zero())
    };
    real_max(real_sqrt(weight), tiny(15))
}

/// The state after `qubit` has been found to have the value `outcome`.
pub open spec fn collapsed(
    s: Seq<Complex64>,
    qubit: usize,
    n: usize,
    outcome: bool,
    p1: Complex64,
) -> Seq<Complex64> {
    Seq::new(
        s.len(),
        |i: int|
            if i >= dimension(n) {
                s[i]
            } else if bit_set(i as usize, qubit) == outcome {
                complex_unscale(s[i], survivor_norm(p1, outcome))
            } else {
                complex_zero()
            },
    )
}

/// Collapses the state on a given outcome, whose probability of being 1 was `p1`.
pub fn collapse_qubit(
    state: &mut [Complex64],
    qubit: usize,
    n: usize,
    outcome: bool,
    p1: Complex64,
)
    requires
        n < usize::BITS,
        dimension(n) <= old(state)@.len(),
        qubit < usize::BITS,
    ensures
        final(state)@ == collapsed(old(state)@, qubit, n, outcome, p1),
{
    let ghost before = state@;
    let weight: Complex64 = if outcome {
        p1
    } else {
        larger_real(sub_complex(one(), p1), zero())
    };
    let norm: Complex64 = larger_real(sqrt_real(weight), tiny_real(15));
    let n_states: usize = 1usize << n;
    let bit: usize = 1usize << qubit;
    let mut i: usize = 0;
    while i < n_states
        invariant
            i <= n_states,
            n_states == dimension(n),
            bit == bit_mask(qubit),
            n_states <= before.len(),
            state@.len() == before.len(),
            norm == survivor_norm(p1, outcome),
            forall|k: int|
                #![trigger state@[k]]
                0 <= k < before.len() ==> state@[k] == (if k < i {
                    collapsed(before, qubit, n, outcome, p1)[k]
                } else {
                    before[k]
                }),
        decreases n_states - i,
    {
        let set: bool = i & bit != 0;
        if set == outcome {
            let amp: Complex64 = state[i];
            state[i] = unscale_complex(amp, norm);
        } else {
            state[i] = zero();
        }
        i = i + 1;
    }
    assert(state@ =~= collapsed(before, qubit, n, outcome, p1));
}

/// Measures `qubit`: collapses the state, renormalises it and returns the outcome, 0 or 1.
/// The outcome is 1 where the number drawn from `rng` is below the probability of a 1.
pub fn measure_qubit_seq(
    state: &mut [Complex64],
    qubit: usize,
    n: usize,
    rng: &mut ChaCha8Rng,
) -> (outcome: u8)
    requires
        n < usize::BITS,
        dimension(n) <= old(state)@.len(),
        qubit < usize::BITS,
    ensures
        ({
            let p1 = probability_one(old(state)@, qubit, n);
            let (draw, after) = drawn_unit(*old(rng));
            let one = real_less(draw, p1);
            &&& outcome == if one {
                1u8
            } else {
                0u8
            }
            &&& *final(rng) == after
            &&& final(state)@ == collapsed(old(state)@, qubit, n, one, p1)
        }),
{
    let n_states: usize = 1usize << n;
    let bit: usize = 1usize << qubit;
    let mut p1: Complex64 = zero();
    let mut i: usize = 0;
    while i < n_states
        invariant
            i <= n_states,
            n_states <= state@.len(),
            bit == bit_mask(qubit),
            p1 == weight_one(state@, qubit, i as nat),
        decreases n_states - i,
    {
        if i & bit != 0 {
            p1 = add_complex(p1, norm_sqr_complex(state[i]));
        }
        i = i + 1;
    }
    let draw: Complex64 = draw_unit(rng);
    let outcome: bool = less_real(draw, p1);
    collapse_qubit(state, qubit, n, outcome, p1);
    if outcome {
        1
    } else {
        0
    }
}

/// Measures `qubit`; see [`measure_qubit_seq`].
pub fn measure_qubit(
    state: &mut [Complex64],
    qubit: usize,
    n: usize,
    rng: &mut ChaCha8Rng,
) -> (outcome: u8)
    requires
        n < usize::BITS,
        dimension(n) <= old(state)@.len(),
        qubit < usize::BITS,
    ensures
        ({
            let p1 = probability_one(old(state)@, qubit, n);
            let (draw, after) = drawn_unit(*old(rng));
            let one = real_less(draw, p1);
            &&& outcome == if one {
                1u8
            } else {
                0u8
            }
            &&& *final(rng) == after
            &&& final(state)@ == collapsed(old(state)@, qubit, n, one, p1)
        }),
{
    measure_qubit_seq(state, qubit, n, rng)
}

/// A measured state holds no amplitude of the other outcome.
pub proof fn law_collapse_removes_other_outcome(
    s: Seq<Complex64>,
    qubit: usize,
    n: usize,
    outcome: bool,
    p1: Complex64,
    i: usize,
)
    requires
        i < dimension(n) <= s.len(),
        bit_set(i, qubit) != outcome,
    ensures
        collapsed(s, qubit, n, outcome, p1)[i as int] == complex_zero(),
{
}

/// The sum of the squared moduli of those among the first `count` amplitudes at which
/// `qubits` read the index `o`, added up in index order.
pub open spec fn marginal_weight(
    s: Seq<Complex64>,
    qubits: Seq<usize>,
    o: nat,
    count: nat,
) -> Complex64
    decreases count,
{
    if count == 0 {
        complex_zero()
    } else {
        let rest = marginal_weight(s, qubits, o, (count - 1) as nat);
        if gate_index((count - 1) as usize, qubits) == o {
            complex_add(rest, complex_norm_sqr(s[count - 1]))
        } else {
            rest
        }
    }
}

/// The number of amplitudes that a distribution over `n` qubits reads.
pub open spec fn amplitudes_read(s: Seq<Complex64>, n: usize) -> nat {
    if dimension(n) <= s.len() {
        dimension(n) as nat
    } else {
        s.len()
    }
}

/// The distribution of the values of some qubits.
pub open spec fn marginal(s: Seq<Complex64>, n: usize, qubits: Seq<usize>) -> Seq<Complex64> {
    Seq::new(
        dimension(qubits.len() as usize) as nat,
        |o: int| marginal_weight(s, qubits, o as nat, amplitudes_read(s, n)),
    )
}

/// Whether the bit for the qubit at place `m` of `k` qubits is set in the index `o`; the first
/// qubit is the most significant bit.
pub open spec fn index_bit(o: nat, k: nat, m: int) -> bool
    decreases k,
{
    if k == 0 || m >= k {
        false
    } else if m == k - 1 {
        o % 2 == 1
    } else {
        index_bit(o / 2, (k - 1) as nat, m)
    }
}

/// A basis state has an index exactly where each qubit has the value of its bit.
proof fn lemma_index_bits(i: usize, qubits: Seq<usize>, o: nat)
    requires
        qubits.len() < usize::BITS,
        o < dimension(qubits.len() as usize),
    ensures
        gate_index(i, qubits) == o <==> forall|m: int|
            0 <= m < qubits.len() ==> bit_set(i, #[trigger] qubits[m]) == index_bit(
                o,
                qubits.len(),
                m,
            ),
    decreases qubits.len(),
{
    let k = qubits.len();
    lemma_dimension_zero();
    if k > 0 {
        let rest = qubits.drop_last();
        lemma_dimension_step((k - 1) as usize);
        lemma_index_bits(i, rest, o / 2);
        if gate_index(i, qubits) == o {
            assert(gate_index(i, rest) == o / 2);
            assert forall|m: int| 0 <= m < k implies bit_set(i, #[trigger] qubits[m]) == index_bit(
                o,
                k,
                m,
            ) by {
                if m < k - 1 {
                    assert(rest[m] == qubits[m]);
                }
            }
        }
        if forall|m: int|
            0 <= m < k ==> bit_set(i, #[trigger] qubits[m]) == index_bit(o, k, m) {
            assert forall|m: int| 0 <= m < k - 1 implies bit_set(i, #[trigger] rest[m]) == index_bit(
                o / 2,
                (k - 1) as nat,
                m,
            ) by {
                assert(rest[m] == qubits[m]);
            }
            assert(bit_set(i, qubits[k - 1]) == index_bit(o, k, k - 1));
        }
    }
}

proof fn lemma_reordered_weight(
    s: Seq<Complex64>,
    qubits: Seq<usize>,
    other: Seq<usize>,
    o: nat,
    o2: nat,
    count: nat,
)
    requires
        forall|i: usize| #[trigger] gate_index(i, qubits) == o <==> gate_index(i, other) == o2,
    ensures
        marginal_weight(s, qubits, o, count) == marginal_weight(s, other, o2, count),
    decreases count,
{
    if count > 0 {
        lemma_reordered_weight(s, qubits, other, o, o2, (count - 1) as nat);
        assert(gate_index((count - 1) as usize, qubits) == o <==> gate_index(
            (count - 1) as usize,
            other,
        ) == o2);
    }
}

/// Reordering the qubits only permutes the entries of a distribution: the entry at `o` moves to
/// the place `o2` whose bits are those of `o`, reordered like the qubits. `order` gives the old
/// place of each qubit, `back` the new one.
pub proof fn law_reordering_permutes_marginals(
    s: Seq<Complex64>,
    n: usize,
    qubits: Seq<usize>,
    other: Seq<usize>,
    order: Seq<int>,
    back: Seq<int>,
    o: nat,
    o2: nat,
)
    requires
        qubits.len() < usize::BITS,
        other.len() == qubits.len(),
        order.len() == qubits.len(),
        back.len() == qubits.len(),
        forall|m: int|
            0 <= m < order.len() ==> 0 <= #[trigger] order[m] < qubits.len() && other[m]
                == qubits[order[m]],
        forall|m: int|
            0 <= m < back.len() ==> 0 <= #[trigger] back[m] < qubits.len() && order[back[m]] == m,
        o < dimension(qubits.len() as usize),
        o2 < dimension(qubits.len() as usize),
        forall|m: int|
            0 <= m < order.len() ==> index_bit(o2, qubits.len(), m) == index_bit(
                o,
                qubits.len(),
                #[trigger] order[m],
            ),
    ensures
        marginal(s, n, other)[o2 as int] == marginal(s, n, qubits)[o as int],
{
    let k = qubits.len();
    assert forall|i: usize| #[trigger] gate_index(i, qubits) == o <==> gate_index(i, other) == o2 by {
        lemma_index_bits(i, qubits, o);
        lemma_index_bits(i, other, o2);
        if gate_index(i, qubits) == o {
            assert forall|m: int| 0 <= m < k implies bit_set(i, #[trigger] other[m]) == index_bit(
                o2,
                k,
                m,
            ) by {
                let at = order[m];
                assert(bit_set(i, qubits[at]) == index_bit(o, k, at));
            }
        }
        if gate_index(i, other) == o2 {
            assert forall|m: int| 0 <= m < k implies bit_set(i, #[trigger] qubits[m]) == index_bit(
                o,
                k,
                m,
            ) by {
                let at = back[m];
                assert(order[at] == m);
                assert(bit_set(i, other[at]) == index_bit(o2, k, at));
            }
        }
    }
    lemma_reordered_weight(s, qubits, other, o, o2, amplitudes_read(s, n));
}

proof fn lemma_dimension_zero()
    ensures
        dimension(0) == 1,
{
    lemma_dimension_step(0);
}

/// The index that some qubits read in the basis state `basis`; the first qubit is the most
/// significant bit.
pub fn read_index(basis: usize, qubits: &[usize]) -> (r: usize)
    requires
        qubits@.len() < usize::BITS,
        qubits_fit(qubits@, usize::BITS as int),
    ensures
        r == gate_index(basis, qubits@),
        r < dimension(qubits@.len() as usize),
{
    let mut outcome: usize = 0;
    let mut j: usize = 0;
    assert(qubits@.take(0) =~= Seq::<usize>::empty());
    while j < qubits.len()
        invariant
            j <= qubits@.len(),
            qubits@.len() < usize::BITS,
            qubits_fit(qubits@, usize::BITS as int),
            outcome == gate_index(basis, qubits@.take(j as int)),
        decreases qubits@.len() - j,
    {
        let q: usize = qubits[j];
        let bit: usize = 1usize << q;
        proof {
            assert(qubits@.take(j + 1).drop_last() =~= qubits@.take(j as int));
            lemma_gate_index_below(basis, qubits@.take(j + 1));
        }
        if basis & bit != 0 {
            outcome = 2 * outcome + 1;
        } else {
            outcome = 2 * outcome;
        }
        j = j + 1;
    }
    assert(qubits@.take(j as int) =~= qubits@);
    proof {
        lemma_gate_index_below(basis, qubits@);
    }
    outcome
}

/// Whether adding the squared modulus of any of the first `count` amplitudes to zero gives it
/// back.
pub open spec fn weights_add_up(s: Seq<Complex64>, count: nat) -> bool {
    forall|i: int|
        0 <= i < count ==> complex_add(complex_zero(), #[trigger] complex_norm_sqr(s[i]))
            == complex_norm_sqr(s[i])
}

/// The probability of each value of the given qubits; `qubits[0]` is the most significant
/// bit of the index. The probabilities are real numbers.
pub fn marginal_probs(state: &[Complex64], n: usize, qubits: &[usize]) -> (probs: Vec<Complex64>)
    requires
        n < usize::BITS,
        qubits@.len() < usize::BITS,
        qubits_fit(qubits@, usize::BITS as int),
    ensures
        probs@ == marginal(state@, n, qubits@),
        forall|o: int| 0 <= o < probs@.len() ==> !real_less(#[trigger] probs@[o], complex_zero()),
        weights_add_up(state@, amplitudes_read(state@, n)),
{
    let dim: usize = 1usize << qubits.len();
    let full: usize = 1usize << n;
    let n_states: usize = if full <= state.len() {
        full
    } else {
        state.len()
    };
    let mut probs: Vec<Complex64> = Vec::new();
    let mut p: usize = 0;
    while p < dim
        invariant
            p <= dim,
            probs@.len() == p,
            forall|o: int|
                0 <= o < p ==> #[trigger] probs@[o] == complex_zero() && !real_less(
                    probs@[o],
                    complex_zero(),
                ),
        decreases dim - p,
    {
        probs.push(zero());
        p = p + 1;
    }
    let mut basis: usize = 0;
    while basis < n_states
        invariant
            basis <= n_states,
            n_states == amplitudes_read(state@, n),
            n_states <= state@.len(),
            qubits@.len() < usize::BITS,
            qubits_fit(qubits@, usize::BITS as int),
            dim == dimension(qubits@.len() as usize),
            probs@.len() == dim,
            weights_add_up(state@, basis as nat),
            forall|o: int| 0 <= o < dim ==> !real_less(#[trigger] probs@[o], complex_zero()),
            forall|o: int|
                0 <= o < dim ==> #[trigger] probs@[o] == marginal_weight(
                    state@,
                    qubits@,
                    o as nat,
                    basis as nat,
                ),
        decreases n_states - basis,
    {
        let outcome: usize = read_index(basis, qubits);
        let sum: Complex64 = add_complex(probs[outcome], norm_sqr_complex(state[basis]));
        probs[outcome] = sum;
        basis = basis + 1;
    }
    assert(probs@ =~= marginal(state@, n, qubits@));
    probs
}

} // verus!
