//! Circuits that measure only at the end.
//!
//! Where no gate follows the measurement of its qubits, the state before the measurements
//! can be prepared once and sampled as often as there are shots.

use num_complex::Complex64;
use rand_chacha::ChaCha8Rng;
use vstd::prelude::*;

use crate::bits::bit_set;
use crate::complex::{complex_norm_sqr, norm_sqr_complex};
use crate::counts::Counts;
use crate::fusion::FusedInstruction;
use crate::instruction::Instruction;
use crate::measure::{marginal, marginal_probs};
use crate::random::{seed_rng, seeded};
use crate::sampling::{
    count_outcomes, cumulative, cumulative_distribution, is_sampled_counts, is_sampling,
    is_tally_of, law_sampling_is_unique, none_negative, sample_cdf_counts,
};
use crate::text::bit_char;
use crate::wide_gate::qubits_fit;

verus! {

/// A measurement of a qubit into a classical bit.
#[derive(Clone, Copy, Debug, PartialEq, Eq, Structural)]
pub struct TerminalMeasurement {
    pub qubit: usize,
    pub cbit: usize,
}

/// The measurements at the end of a circuit, in their order. No classical bit occurs twice.
pub struct TerminalMeasurementPlan {
    pub measurements: Vec<TerminalMeasurement>,
}

/// How sampling looks at the state.
#[derive(Clone, Copy, Debug, PartialEq, Eq, Structural)]
pub enum TerminalSamplingMode {
    Auto,
    Marginal,
    FullState,
}

/// Whether a qubit occurs among some measurements.
pub open spec fn measures_qubit(measurements: Seq<TerminalMeasurement>, q: usize) -> bool {
    exists|i: int| 0 <= i < measurements.len() && (#[trigger] measurements[i]).qubit == q
}

/// Whether a classical bit occurs among some measurements.
pub open spec fn writes_cbit(measurements: Seq<TerminalMeasurement>, cbit: usize) -> bool {
    exists|i: int| 0 <= i < measurements.len() && (#[trigger] measurements[i]).cbit == cbit
}

/// Whether one of `qubits` occurs among some measurements.
pub open spec fn touches_measured(
    qubits: Seq<usize>,
    measurements: Seq<TerminalMeasurement>,
) -> bool {
    exists|j: int| 0 <= j < qubits.len() && measures_qubit(measurements, #[trigger] qubits[j])
}

/// The measurements among the first `count` fused instructions, or nothing if they cannot be
/// put off to the end: where a classical bit is written twice, a gate acts on a qubit that
/// was measured before, or there is a reset or a condition.
pub open spec fn deferred(fused: Seq<FusedInstruction<'_>>, count: int) -> Option<
    Seq<TerminalMeasurement>,
>
    decreases count,
{
    if count <= 0 {
        Some(Seq::empty())
    } else {
        match deferred(fused, count - 1) {
            None => None,
            Some(before) => match fused[count - 1] {
                FusedInstruction::Fused1Q { qubit, .. } => if measures_qubit(before, qubit) {
                    None
                } else {
                    Some(before)
                },
                FusedInstruction::Original(inst) => match *inst {
                    Instruction::Measure { qubit, cbit } => if writes_cbit(before, cbit) {
                        None
                    } else {
                        Some(before.push(TerminalMeasurement { qubit, cbit }))
                    },
                    Instruction::Barrier | Instruction::Classical { .. } => Some(before),
                    Instruction::Reset { .. } | Instruction::Conditional { .. } => None,
                    _ => if touches_measured(inst.touched(), before) {
                        None
                    } else {
                        Some(before)
                    },
                },
            },
        }
    }
}

fn has_qubit(measurements: &Vec<TerminalMeasurement>, q: usize) -> (r: bool)
    ensures
        r == measures_qubit(measurements@, q),
{
    let mut i: usize = 0;
    while i < measurements.len()
        invariant
            i <= measurements@.len(),
            forall|j: int| 0 <= j < i ==> (#[trigger] measurements@[j]).qubit != q,
        decreases measurements@.len() - i,
    {
        if measurements[i].qubit == q {
            return true;
        }
        i = i + 1;
    }
    false
}

pub(crate) fn has_cbit(measurements: &Vec<TerminalMeasurement>, cbit: usize) -> (r: bool)
    ensures
        r == writes_cbit(measurements@, cbit),
{
    let mut i: usize = 0;
    while i < measurements.len()
        invariant
            i <= measurements@.len(),
            forall|j: int| 0 <= j < i ==> (#[trigger] measurements@[j]).cbit != cbit,
        decreases measurements@.len() - i,
    {
        if measurements[i].cbit == cbit {
            return true;
        }
        i = i + 1;
    }
    false
}

fn has_touched(qubits: &Vec<usize>, measurements: &Vec<TerminalMeasurement>) -> (r: bool)
    ensures
        r == touches_measured(qubits@, measurements@),
{
    let mut j: usize = 0;
    while j < qubits.len()
        invariant
            j <= qubits@.len(),
            forall|l: int| 0 <= l < j ==> !measures_qubit(measurements@, #[trigger] qubits@[l]),
        decreases qubits@.len() - j,
    {
        let q: usize = qubits[j];
        assert(qubits@[j as int] == q);
        if has_qubit(measurements, q) {
            return true;
        }
        j = j + 1;
    }
    false
}

proof fn lemma_deferred_none(fused: Seq<FusedInstruction<'_>>, i: int, j: int)
    requires
        i <= j,
        deferred(fused, i) is None,
    ensures
        deferred(fused, j) is None,
    decreases j - i,
{
    if i < j {
        lemma_deferred_none(fused, i, j - 1);
    }
}

/// The measurements of a circuit, if all of them can be put off to the end and there is one.
pub fn terminal_measurement_plan(fused: &[FusedInstruction<'_>]) -> (r: Option<
    TerminalMeasurementPlan,
>)
    ensures
        match deferred(fused@, fused@.len() as int) {
            Some(measurements) => if measurements.len() == 0 {
                r is None
            } else {
                r is Some && r->0.measurements@ == measurements
            },
            None => r is None,
        },
{
    let mut measurements: Vec<TerminalMeasurement> = Vec::new();
    let mut i: usize = 0;
    while i < fused.len()
        invariant
            i <= fused@.len(),
            deferred(fused@, i as int) == Some(measurements@),
        decreases fused@.len() - i,
    {
        let possible: bool = match &fused[i] {
            FusedInstruction::Fused1Q { qubit, .. } => !has_qubit(&measurements, *qubit),
            FusedInstruction::Original(inst) => match inst {
                Instruction::Measure { qubit, cbit } => {
                    if has_cbit(&measurements, *cbit) {
                        false
                    } else {
                        measurements.push(TerminalMeasurement { qubit: *qubit, cbit: *cbit });
                        true
                    }
                },
                Instruction::Barrier | Instruction::Classical { .. } => true,
                Instruction::Reset { .. } | Instruction::Conditional { .. } => false,
                _ => {
                    let touched: Vec<usize> = inst.qubits();
                    !has_touched(&touched, &measurements)
                },
            },
        };
        if !possible {
            proof {
                assert(deferred(fused@, i + 1) is None);
                lemma_deferred_none(fused@, i + 1, fused@.len() as int);
            }
            return None;
        }
        i = i + 1;
    }
    if measurements.len() == 0 {
        return None;
    }
    Some(TerminalMeasurementPlan { measurements })
}

/// No two measurements that can be put off to the end write the same classical bit.
pub proof fn law_deferred_cbits_differ(fused: Seq<FusedInstruction<'_>>, count: int, a: int, b: int)
    requires
        deferred(fused, count) is Some,
        0 <= a < b < deferred(fused, count)->0.len(),
    ensures
        deferred(fused, count)->0[a].cbit != deferred(fused, count)->0[b].cbit,
    decreases count,
{
    let before = deferred(fused, count - 1)->0;
    let now = deferred(fused, count)->0;
    if b < before.len() {
        law_deferred_cbits_differ(fused, count - 1, a, b);
        assert(now[a] == before[a] && now[b] == before[b]);
    } else {
        assert(now.len() == before.len() + 1);
        assert(before[a] == now[a]);
        if now[a].cbit == now[b].cbit {
            assert(writes_cbit(before, now[b].cbit));
        }
    }
}

/// The character at place `j` of a key of `num_cbits` characters, once the first `count`
/// measurements are written: that of the last measurement into the bit, and `0` without one.
pub open spec fn key_char(
    values: spec_fn(int) -> bool,
    measurements: Seq<TerminalMeasurement>,
    count: int,
    num_cbits: int,
    j: int,
) -> char
    decreases count,
{
    if count <= 0 {
        '0'
    } else if measurements[count - 1].cbit == num_cbits - 1 - j {
        bit_char(values(count - 1))
    } else {
        key_char(values, measurements, count - 1, num_cbits, j)
    }
}

/// The key of an outcome: one character for each classical bit, the highest bit first.
pub open spec fn terminal_key(
    values: spec_fn(int) -> bool,
    measurements: Seq<TerminalMeasurement>,
    num_cbits: nat,
) -> Seq<char> {
    Seq::new(
        num_cbits,
        |j: int| key_char(values, measurements, measurements.len() as int, num_cbits as int, j),
    )
}

/// The values that the measurements read in the basis state `basis`.
pub open spec fn basis_values(basis: usize, measurements: Seq<TerminalMeasurement>) -> spec_fn(
    int,
) -> bool {
    |i: int| bit_set(basis, measurements[i].qubit)
}

/// The values that the measurements read in the sample `idx` of `width` qubits, where
/// `indices` gives the place of each measured qubit among the sampled ones.
pub open spec fn sample_values(idx: usize, width: int, indices: Seq<usize>) -> spec_fn(int) -> bool {
    |i: int| bit_set(idx, (width - 1 - indices[i]) as usize)
}

/// The text of some bits.
pub(crate) fn bits_text(bits: &Vec<bool>) -> (r: String)
    ensures
        r@ == bits@.map_values(|set: bool| bit_char(set)),
{
    let mut text: String = String::new();
    let mut i: usize = 0;
    while i < bits.len()
        invariant
            i <= bits@.len(),
            text@.len() == i,
            forall|j: int| 0 <= j < i ==> #[trigger] text@[j] == bit_char(bits@[j]),
        decreases bits@.len() - i,
    {
        if bits[i] {
            text.push('1');
        } else {
            text.push('0');
        }
        i = i + 1;
    }
    assert(text@ =~= bits@.map_values(|set: bool| bit_char(set)));
    text
}

/// `count` bits that are not set.
pub(crate) fn clear_bits(count: usize) -> (r: Vec<bool>)
    ensures
        r@.len() == count,
        forall|j: int| 0 <= j < count ==> !(#[trigger] r@[j]),
{
    let mut bits: Vec<bool> = Vec::new();
    let mut i: usize = 0;
    while i < count
        invariant
            i <= count,
            bits@.len() == i,
            forall|j: int| 0 <= j < i ==> !(#[trigger] bits@[j]),
        decreases count - i,
    {
        bits.push(false);
        i = i + 1;
    }
    bits
}

/// The key of the basis state `basis`. Bits beyond the key are not written.
pub fn terminal_basis_key(
    basis: usize,
    plan: &TerminalMeasurementPlan,
    num_cbits: usize,
) -> (r: String)
    requires
        forall|i: int|
            0 <= i < plan.measurements@.len() ==> (#[trigger] plan.measurements@[i]).qubit
                < usize::BITS,
    ensures
        r@ == terminal_key(
            basis_values(basis, plan.measurements@),
            plan.measurements@,
            num_cbits as nat,
        ),
{
    let ghost values = basis_values(basis, plan.measurements@);
    let mut bits: Vec<bool> = clear_bits(num_cbits);
    let mut i: usize = 0;
    while i < plan.measurements.len()
        invariant
            i <= plan.measurements@.len(),
            forall|l: int|
                0 <= l < plan.measurements@.len() ==> (#[trigger] plan.measurements@[l]).qubit
                    < usize::BITS,
            values == basis_values(basis, plan.measurements@),
            bits@.len() == num_cbits,
            forall|j: int|
                0 <= j < num_cbits ==> bit_char(#[trigger] bits@[j]) == key_char(
                    values,
                    plan.measurements@,
                    i as int,
                    num_cbits as int,
                    j,
                ),
        decreases plan.measurements@.len() - i,
    {
        let measurement: TerminalMeasurement = plan.measurements[i];
        assert(plan.measurements@[i as int] == measurement);
        if measurement.cbit < num_cbits {
            let measured: bool = basis & (1usize << measurement.qubit) != 0;
            bits[num_cbits - 1 - measurement.cbit] = measured;
        }
        i = i + 1;
    }
    let text: String = bits_text(&bits);
    assert(text@ =~= terminal_key(values, plan.measurements@, num_cbits as nat));
    text
}

/// The key of the sample `sample_idx` of `width` qubits. Bits beyond the key are not
/// written.
pub fn terminal_sample_key(
    sample_idx: usize,
    width: usize,
    plan: &TerminalMeasurementPlan,
    measurement_indices: &[usize],
    num_cbits: usize,
) -> (r: String)
    requires
        width <= usize::BITS,
        measurement_indices@.len() == plan.measurements@.len(),
        forall|i: int|
            0 <= i < measurement_indices@.len() ==> #[trigger] measurement_indices@[i] < width,
    ensures
        r@ == terminal_key(
            sample_values(sample_idx, width as int, measurement_indices@),
            plan.measurements@,
            num_cbits as nat,
        ),
{
    let ghost values = sample_values(sample_idx, width as int, measurement_indices@);
    let mut bits: Vec<bool> = clear_bits(num_cbits);
    let mut i: usize = 0;
    while i < plan.measurements.len()
        invariant
            i <= plan.measurements@.len(),
            width <= usize::BITS,
            measurement_indices@.len() == plan.measurements@.len(),
            forall|l: int|
                0 <= l < measurement_indices@.len() ==> #[trigger] measurement_indices@[l] < width,
            values == sample_values(sample_idx, width as int, measurement_indices@),
            bits@.len() == num_cbits,
            forall|j: int|
                0 <= j < num_cbits ==> bit_char(#[trigger] bits@[j]) == key_char(
                    values,
                    plan.measurements@,
                    i as int,
                    num_cbits as int,
                    j,
                ),
        decreases plan.measurements@.len() - i,
    {
        let measurement: TerminalMeasurement = plan.measurements[i];
        let place: usize = measurement_indices[i];
        assert(measurement_indices@[i as int] < width);
        if measurement.cbit < num_cbits {
            let shift: usize = width - 1 - place;
            let measured: bool = sample_idx & (1usize << shift) != 0;
            bits[num_cbits - 1 - measurement.cbit] = measured;
        }
        i = i + 1;
    }
    let text: String = bits_text(&bits);
    assert(text@ =~= terminal_key(values, plan.measurements@, num_cbits as nat));
    text
}

/// The different qubits that are measured, and for each measurement the place of its qubit
/// among them.
pub struct TerminalSamplingLayout {
    pub sampled_qubits: Vec<usize>,
    pub measurement_indices: Vec<usize>,
}

/// The different qubits of the first `count` measurements, in the order in which they occur
/// first.
pub open spec fn different_qubits(measurements: Seq<TerminalMeasurement>, count: int) -> Seq<usize>
    decreases count,
{
    if count <= 0 {
        Seq::empty()
    } else {
        let before = different_qubits(measurements, count - 1);
        if before.contains(measurements[count - 1].qubit) {
            before
        } else {
            before.push(measurements[count - 1].qubit)
        }
    }
}

/// Whether a layout belongs to some measurements.
pub open spec fn is_layout(
    layout: TerminalSamplingLayout,
    measurements: Seq<TerminalMeasurement>,
) -> bool {
    &&& layout.sampled_qubits@ == different_qubits(measurements, measurements.len() as int)
    &&& layout.measurement_indices@.len() == measurements.len()
    &&& forall|i: int|
        0 <= i < measurements.len() ==> (#[trigger] layout.measurement_indices@[i])
            < layout.sampled_qubits@.len()
            && layout.sampled_qubits@[layout.measurement_indices@[i] as int]
            == measurements[i].qubit
    &&& forall|a: int, b: int|
        0 <= a < b < layout.sampled_qubits@.len() ==> #[trigger] layout.sampled_qubits@[a]
            != #[trigger] layout.sampled_qubits@[b]
}

/// Lists the different qubits that are measured.
pub fn terminal_sampling_layout(plan: &TerminalMeasurementPlan) -> (r: TerminalSamplingLayout)
    ensures
        is_layout(r, plan.measurements@),
{
    let mut sampled_qubits: Vec<usize> = Vec::new();
    let mut measurement_indices: Vec<usize> = Vec::new();
    let mut i: usize = 0;
    while i < plan.measurements.len()
        invariant
            i <= plan.measurements@.len(),
            sampled_qubits@ == different_qubits(plan.measurements@, i as int),
            measurement_indices@.len() == i,
            forall|j: int|
                0 <= j < i ==> (#[trigger] measurement_indices@[j]) < sampled_qubits@.len()
                    && sampled_qubits@[measurement_indices@[j] as int]
                    == plan.measurements@[j].qubit,
            forall|a: int, b: int|
                0 <= a < b < sampled_qubits@.len() ==> #[trigger] sampled_qubits@[a]
                    != #[trigger] sampled_qubits@[b],
        decreases plan.measurements@.len() - i,
    {
        let q: usize = plan.measurements[i].qubit;
        let mut place: usize = 0;
        while place < sampled_qubits.len() && sampled_qubits[place] != q
            invariant
                place <= sampled_qubits@.len(),
                forall|a: int| 0 <= a < place ==> #[trigger] sampled_qubits@[a] != q,
            decreases sampled_qubits@.len() - place,
        {
            place = place + 1;
        }
        let ghost before = sampled_qubits@;
        if place == sampled_qubits.len() {
            assert(!before.contains(q));
            sampled_qubits.push(q);
        } else {
            assert(before[place as int] == q);
        }
        measurement_indices.push(place);
        i = i + 1;
    }
    TerminalSamplingLayout { sampled_qubits, measurement_indices }
}

/// Whether the whole state is sampled rather than the measured qubits.
pub fn terminal_measurement_uses_full_state(
    layout: &TerminalSamplingLayout,
    n: usize,
    mode: TerminalSamplingMode,
) -> (r: bool)
    ensures
        r == (match mode {
            TerminalSamplingMode::Auto => layout.sampled_qubits@.len() == n,
            TerminalSamplingMode::Marginal => false,
            TerminalSamplingMode::FullState => true,
        }),
{
    match mode {
        TerminalSamplingMode::Auto => layout.sampled_qubits.len() == n,
        TerminalSamplingMode::Marginal => false,
        TerminalSamplingMode::FullState => true,
    }
}

/// Whether the whole state is sampled for some measurements.
pub open spec fn samples_full_state(
    measurements: Seq<TerminalMeasurement>,
    n: usize,
    mode: TerminalSamplingMode,
) -> bool {
    match mode {
        TerminalSamplingMode::Auto => different_qubits(
            measurements,
            measurements.len() as int,
        ).len() == n,
        TerminalSamplingMode::Marginal => false,
        TerminalSamplingMode::FullState => true,
    }
}

/// The name of the way in which the outcomes of a plan are sampled.
pub fn terminal_measurement_strategy(
    plan: &TerminalMeasurementPlan,
    n: usize,
    mode: TerminalSamplingMode,
) -> (r: &'static str)
    ensures
        r@ == if samples_full_state(plan.measurements@, n, mode) {
            "terminal_measurement_full_state_batch"@
        } else {
            "terminal_measurement_marginal_batch"@
        },
{
    let layout: TerminalSamplingLayout = terminal_sampling_layout(plan);
    if terminal_measurement_uses_full_state(&layout, n, mode) {
        "terminal_measurement_full_state_batch"
    } else {
        "terminal_measurement_marginal_batch"
    }
}

/// The squared moduli of some amplitudes.
pub open spec fn weights(s: Seq<Complex64>) -> Seq<Complex64> {
    s.map_values(|amp: Complex64| complex_norm_sqr(amp))
}

/// The squared moduli of some amplitudes.
pub(crate) fn weights_of(state: &[Complex64]) -> (r: Vec<Complex64>)
    ensures
        r@ == weights(state@),
        none_negative(r@),
{
    let mut out: Vec<Complex64> = Vec::new();
    let mut i: usize = 0;
    while i < state.len()
        invariant
            i <= state@.len(),
            out@.len() == i,
            forall|j: int| 0 <= j < i ==> #[trigger] out@[j] == complex_norm_sqr(state@[j]),
            none_negative(out@),
        decreases state@.len() - i,
    {
        out.push(norm_sqr_complex(state[i]));
        i = i + 1;
    }
    assert(out@ =~= weights(state@));
    out
}

/// The key of a basis state, as a function of the basis state.
pub open spec fn basis_keys(measurements: Seq<TerminalMeasurement>, num_cbits: nat) -> spec_fn(
    usize,
) -> Seq<char> {
    |basis: usize| terminal_key(basis_values(basis, measurements), measurements, num_cbits)
}

/// The key of a sample, as a function of the sample.
pub open spec fn sample_keys(
    measurements: Seq<TerminalMeasurement>,
    layout: TerminalSamplingLayout,
    num_cbits: nat,
) -> spec_fn(usize) -> Seq<char> {
    |idx: usize|
        terminal_key(
            sample_values(
                idx,
                layout.sampled_qubits@.len() as int,
                layout.measurement_indices@,
            ),
            measurements,
            num_cbits,
        )
}

/// Samples `shots` basis states and counts the keys of what the measurements read in them.
pub fn sample_terminal_full_state(
    state: &[Complex64],
    num_cbits: usize,
    plan: &TerminalMeasurementPlan,
    shots: usize,
    base_seed: u64,
) -> (counts: Counts)
    requires
        state@.len() > 0,
        forall|i: int|
            0 <= i < plan.measurements@.len() ==> (#[trigger] plan.measurements@[i]).qubit
                < usize::BITS,
    ensures
        counts.wf(),
        counts.total() == shots,
        is_sampled_counts(
            cumulative(weights(state@)),
            seeded(base_seed),
            shots as nat,
            basis_keys(plan.measurements@, num_cbits as nat),
            counts@,
        ),
{
    let probs: Vec<Complex64> = weights_of(state);
    let cdf: Vec<Complex64> = cumulative_distribution(probs.as_slice());
    let mut rng: ChaCha8Rng = seed_rng(base_seed);
    let pairs: Vec<(usize, usize)> = sample_cdf_counts(cdf.as_slice(), shots, &mut rng);
    let ghost idxs = choose|idxs: Seq<usize>|
        is_sampling(cdf@, seeded(base_seed), shots as nat, idxs) && #[trigger] is_tally_of(
            pairs@,
            idxs,
        );
    let to_key = |basis: usize| -> (text: String)
        requires
            forall|i: int|
                0 <= i < plan.measurements@.len() ==> (#[trigger] plan.measurements@[i]).qubit
                    < usize::BITS,
        ensures
            text@ == terminal_key(
                basis_values(basis, plan.measurements@),
                plan.measurements@,
                num_cbits as nat,
            ),
    {
        terminal_basis_key(basis, plan, num_cbits)
    };
    let counts: Counts = count_outcomes(
        &pairs,
        to_key,
        Ghost(basis_keys(plan.measurements@, num_cbits as nat)),
        Ghost(idxs),
    );
    proof {
        law_sampling_is_unique(cdf@, seeded(base_seed), shots as nat, idxs);
    }
    counts
}

/// Samples `shots` values of the measured qubits and counts the keys of what the measurements
/// read in them.
pub fn sample_terminal_marginal(
    state: &[Complex64],
    num_cbits: usize,
    plan: &TerminalMeasurementPlan,
    layout: &TerminalSamplingLayout,
    n: usize,
    shots: usize,
    base_seed: u64,
) -> (counts: Counts)
    requires
        n < usize::BITS,
        is_layout(*layout, plan.measurements@),
        layout.sampled_qubits@.len() < usize::BITS,
        qubits_fit(layout.sampled_qubits@, usize::BITS as int),
    ensures
        counts.wf(),
        counts.total() == shots,
        is_sampled_counts(
            cumulative(marginal(state@, n, layout.sampled_qubits@)),
            seeded(base_seed),
            shots as nat,
            sample_keys(plan.measurements@, *layout, num_cbits as nat),
            counts@,
        ),
{
    let probs: Vec<Complex64> = marginal_probs(state, n, layout.sampled_qubits.as_slice());
    let cdf: Vec<Complex64> = cumulative_distribution(probs.as_slice());
    let width: usize = layout.sampled_qubits.len();
    proof {
        crate::bits::lemma_dimension_positive(width);
    }
    let mut rng: ChaCha8Rng = seed_rng(base_seed);
    let pairs: Vec<(usize, usize)> = sample_cdf_counts(cdf.as_slice(), shots, &mut rng);
    let ghost idxs = choose|idxs: Seq<usize>|
        is_sampling(cdf@, seeded(base_seed), shots as nat, idxs) && #[trigger] is_tally_of(
            pairs@,
            idxs,
        );
    let to_key = |idx: usize| -> (text: String)
        requires
            width < usize::BITS,
            layout.measurement_indices@.len() == plan.measurements@.len(),
            forall|i: int|
                0 <= i < layout.measurement_indices@.len()
                    ==> #[trigger] layout.measurement_indices@[i] < width,
        ensures
            text@ == terminal_key(
                sample_values(idx, width as int, layout.measurement_indices@),
                plan.measurements@,
                num_cbits as nat,
            ),
    {
        terminal_sample_key(idx, width, plan, layout.measurement_indices.as_slice(), num_cbits)
    };
    let counts: Counts = count_outcomes(
        &pairs,
        to_key,
        Ghost(sample_keys(plan.measurements@, *layout, num_cbits as nat)),
        Ghost(idxs),
    );
    proof {
        law_sampling_is_unique(cdf@, seeded(base_seed), shots as nat, idxs);
    }
    counts
}

} // verus!
