//! What holds of whole runs.

use num_complex::Complex64;
use vstd::arithmetic::power2::pow2;
use vstd::prelude::*;

use crate::circuit::{cbit_value, cbits_text, law_one_digit_per_bit, Circuit};
use crate::config::KernelConfig;
use crate::counts::tally;
use crate::fusion::{is_fused_circuit, FusedInstruction};
use crate::gate_error::GateError;
use crate::gates::LinkGates;
use crate::instruction::{same_instruction, Condition, Instruction};
use crate::measure::marginal;
use crate::mps::Mps;
use crate::mps_counters::MpsProfileCounters;
use crate::mps_run::{acts_to, is_mps_action_of, mps_steps_to, MpsAction, MpsPoint};
use crate::mps_shots::{is_mps_shot, is_mps_start, mps_ends_at, mps_runs_to, MpsSettings};
use crate::random::seeded;
use crate::sampling::{
    cumulative, is_sampled_counts, law_sampled_outcomes_stand_for_places,
    law_tally_counts_occurrences, lemma_occurrences_bound,
};
use crate::stabilizer::{measured, Row};
use crate::stabilizer_laws::{
    is_consistent, law_cnot_keeps_consistency, law_ground_state_is_consistent,
    law_h_keeps_consistency, law_measurement_keeps_consistency, law_s_keeps_consistency,
};
use crate::stabilizer_shots::{
    acts_within, all_clifford, clifford_outcome, clifford_outcomes, clifford_run, clifford_step, fresh_shot,
    h_rows, is_clifford, is_first_unsupported, is_stabilizer_result, s_rows, shot_seed,
    touches_only, x_rows, z_rows, CliffordShot, StabilizerReport, UnsupportedInstruction,
};
use crate::statevector::{
    calls_of, condition_holds, is_action_of, performed, register_value, shot_steps_to, steps_to,
    Action, CallTally, SvState,
};
use crate::statevector_shots::{
    are_shot_outcomes, are_terminal_counts, fused_steps_to, ground_amps, is_report_of,
    is_report_of_fused, is_shot_outcome, runs_to, sampled_measurements, shot_start,
    without_measurements, ShotSettings, ShotsReport,
};
use crate::terminal::{
    basis_keys, basis_values, is_layout, key_char, sample_keys, sample_values, samples_full_state,
    terminal_key, weights, TerminalMeasurement, TerminalSamplingLayout, TerminalSamplingMode,
};
use crate::text::bit_char;

verus! {

/// Whether every classical bit that was written is 0 or 1.
pub open spec fn are_bits(cbits: Map<usize, i32>) -> bool {
    forall|i: usize| #[trigger] cbits.dom().contains(i) ==> cbits[i] == 0 || cbits[i] == 1
}

/// An action on a state vector leaves the classical bits 0 or 1.
pub proof fn law_classical_bits_stay_bits(action: Action, n: usize, s: SvState)
    requires
        are_bits(s.cbits),
    ensures
        are_bits(performed(action, n, s).cbits),
{
}

/// An action on a matrix product state leaves the classical bits 0 or 1.
pub proof fn law_classical_bits_of_mps_stay_bits(
    action: MpsAction,
    ahead: Seq<Instruction>,
    before: MpsPoint,
    after: MpsPoint,
    res: Result<(), GateError>,
)
    requires
        are_bits(before.cbits),
        acts_to(action, ahead, before, after, res),
    ensures
        are_bits(after.cbits),
{
}

proof fn lemma_bit_joined(value: u64, k: u64, j: u64)
    by (bit_vector)
    requires
        k < 64,
        j < 64,
        value >> k == 0,
    ensures
        (value | (1u64 << k)) & (1u64 << j) != 0 <==> (j == k || value & (1u64 << j) != 0),
        (value | (0u64 << k)) & (1u64 << j) != 0 <==> value & (1u64 << j) != 0,
        j >= k ==> value & (1u64 << j) == 0,
        k < 63 ==> (value | (1u64 << k)) >> ((k + 1) as u64) == 0,
        k < 63 ==> (value | (0u64 << k)) >> ((k + 1) as u64) == 0,
{
}

proof fn lemma_register_bits(cbits: Map<usize, i32>, condition: Condition, count: int, j: int)
    requires
        are_bits(cbits),
        0 <= count <= 64,
        0 <= j < 64,
    ensures
        register_value(cbits, condition, count) & (1u64 << (j as u64)) != 0 <==> j < count
            && cbit_value(cbits, (condition.creg_base + j) as usize) == 1,
        count < 64 ==> register_value(cbits, condition, count) >> (count as u64) == 0,
    decreases count,
{
    if count > 0 {
        let k = (count - 1) as u64;
        let before = register_value(cbits, condition, count - 1);
        let bit = cbit_value(cbits, (condition.creg_base + count - 1) as usize);
        lemma_register_bits(cbits, condition, count - 1, j);
        assert(bit == 0 || bit == 1) by {
            if cbits.dom().contains((condition.creg_base + count - 1) as usize) {
            }
        }
        lemma_bit_joined(before, k, j as u64);
    } else {
        lemma_no_bits(j as u64);
    }
}

proof fn lemma_no_bits(j: u64)
    by (bit_vector)
    ensures
        0u64 & (1u64 << j) == 0,
        0u64 >> 0u64 == 0,
{
}

/// The value that a condition tests has the bit at `j` set exactly where the classical bit at
/// `j` of the register is 1.
pub proof fn law_condition_reads_its_bits(cbits: Map<usize, i32>, condition: Condition, j: int)
    requires
        are_bits(cbits),
        condition.creg_size <= 64,
        0 <= j < 64,
    ensures
        register_value(cbits, condition, condition.creg_size as int) & (1u64 << (j as u64)) != 0
            <==> j < condition.creg_size && cbit_value(cbits, (condition.creg_base + j) as usize)
            == 1,
{
    lemma_register_bits(cbits, condition, condition.creg_size as int, j);
}

/// The classical bits after some measurements wrote their values, one after another.
pub open spec fn written(
    values: spec_fn(int) -> bool,
    measurements: Seq<TerminalMeasurement>,
    count: int,
) -> Map<usize, i32>
    decreases count,
{
    if count <= 0 {
        Map::empty()
    } else {
        written(values, measurements, count - 1).insert(
            measurements[count - 1].cbit,
            if values(count - 1) {
                1i32
            } else {
                0i32
            },
        )
    }
}

proof fn lemma_written_char(
    values: spec_fn(int) -> bool,
    measurements: Seq<TerminalMeasurement>,
    count: int,
    num_cbits: nat,
    j: int,
)
    requires
        0 <= j < num_cbits <= usize::MAX,
    ensures
        key_char(values, measurements, count, num_cbits as int, j) == bit_char(
            cbit_value(
                written(values, measurements, count),
                (num_cbits - 1 - j) as usize,
            ) == 1,
        ),
        are_bits(written(values, measurements, count)),
    decreases count,
{
    if count > 0 {
        lemma_written_char(values, measurements, count - 1, num_cbits, j);
    }
}

/// The key of sampled measurements is the text of the classical bits that the measurements
/// would have written.
pub proof fn law_sampled_key_is_text_of_bits(
    values: spec_fn(int) -> bool,
    measurements: Seq<TerminalMeasurement>,
    num_cbits: nat,
)
    requires
        num_cbits <= usize::MAX,
    ensures
        terminal_key(values, measurements, num_cbits) == cbits_text(
            written(values, measurements, measurements.len() as int),
            num_cbits,
        ),
{
    let bits = written(values, measurements, measurements.len() as int);
    let text = Seq::new(
        num_cbits,
        |j: int| bit_char(cbit_value(bits, (num_cbits - 1 - j) as usize) == 1),
    );
    if num_cbits > 0 {
        lemma_written_char(values, measurements, measurements.len() as int, num_cbits, 0);
    }
    assert forall|j: int| 0 <= j < num_cbits implies terminal_key(
        values,
        measurements,
        num_cbits,
    )[j] == text[j] by {
        lemma_written_char(values, measurements, measurements.len() as int, num_cbits, j);
    }
    assert(terminal_key(values, measurements, num_cbits) =~= text);
    if num_cbits > 0 {
        law_one_digit_per_bit(bits, num_cbits);
    } else {
        assert(cbits_text(bits, num_cbits) =~= text);
    }
}

/// No bond of a matrix product state is larger than the limit, which counts as one where it is
/// zero.
pub proof fn law_bonds_respect_the_limit(mps: Mps, i: int, limit: usize)
    requires
        mps.wf(),
        mps.max_bond_dimension == Some(limit),
        0 <= i < mps.tensors@.len(),
    ensures
        mps.tensors@[i].left <= limit || mps.tensors@[i].left == 1,
        mps.tensors@[i].right <= limit || mps.tensors@[i].right == 1,
{
}

/// No bond of a matrix product state is larger than two to the power of the number of qubits on
/// either of its sides.
pub proof fn law_bonds_are_no_larger_than_their_sides(mps: Mps, i: int)
    requires
        mps.wf(),
        0 <= i,
        i + 1 < mps.tensors@.len(),
    ensures
        mps.tensors@[i].right == mps.tensors@[i + 1].left,
        mps.tensors@[i].right <= pow2((i + 1) as nat),
        mps.tensors@[i].right <= pow2((mps.tensors@.len() - 1 - i) as nat),
{
    assert(mps.tensors@[i].right == mps.tensors@[i + 1].left);
    assert(mps.tensors@[i + 1].left <= pow2((i + 1) as nat));
}

/// The seeds of later shots are those of shots that start from the seed of the first of them.
pub proof fn law_shot_seeds_add_up(base_seed: u64, a: int, b: int)
    requires
        0 <= a,
        0 <= b,
    ensures
        shot_seed(shot_seed(base_seed, a), b) == shot_seed(base_seed, a + b),
{
    let m = 0x1_0000_0000_0000_0000int;
    vstd::arithmetic::div_mod::lemma_add_mod_noop((base_seed + a) as int, b, m);
    vstd::arithmetic::div_mod::lemma_mod_twice(base_seed + a, m);
    vstd::arithmetic::div_mod::lemma_add_mod_noop((base_seed + a) % m, b, m);
}

/// The outcomes of shots are those of the first ones, followed by those of a run of the other
/// ones from the seed of the first of them: shots can be run in parts.
pub proof fn law_shots_can_be_run_in_parts(circuit: Circuit, base_seed: u64, a: nat, b: nat)
    ensures
        clifford_outcomes(circuit, base_seed, a + b) == clifford_outcomes(circuit, base_seed, a)
            + clifford_outcomes(circuit, shot_seed(base_seed, a as int), b),
{
    let whole = clifford_outcomes(circuit, base_seed, a + b);
    let parts = clifford_outcomes(circuit, base_seed, a) + clifford_outcomes(
        circuit,
        shot_seed(base_seed, a as int),
        b,
    );
    assert forall|i: int| 0 <= i < a + b implies whole[i] == parts[i] by {
        if i >= a {
            law_shot_seeds_add_up(base_seed, a as int, i - a);
        }
    }
    assert(whole =~= parts);
}

/// Outcomes that shots on a state vector can have, followed by those that a run from the seed of
/// the next shot can have, are outcomes that all these shots together can have.
pub proof fn law_independent_shots_can_be_run_in_parts(
    fused: Seq<FusedInstruction<'_>>,
    n: usize,
    num_cbits: nat,
    config: KernelConfig,
    links: LinkGates,
    amps: Seq<Complex64>,
    base_seed: u64,
    first: Seq<Seq<char>>,
    second: Seq<Seq<char>>,
)
    requires
        are_shot_outcomes(fused, n, num_cbits, config, links, amps, base_seed, first),
        are_shot_outcomes(
            fused,
            n,
            num_cbits,
            config,
            links,
            amps,
            shot_seed(base_seed, first.len() as int),
            second,
        ),
    ensures
        are_shot_outcomes(fused, n, num_cbits, config, links, amps, base_seed, first + second),
{
    let both = first + second;
    assert forall|i: int| 0 <= i < both.len() implies is_shot_outcome(
        fused,
        n,
        num_cbits,
        config,
        links,
        shot_start(amps, shot_seed(base_seed, i)),
        #[trigger] both[i],
    ) by {
        let a = first.len() as int;
        if i < a {
            assert(both[i] == first[i]);
        } else {
            law_shot_seeds_add_up(base_seed, a, i - a);
            assert(both[i] == second[i - a]);
        }
    }
}

/// Whether a text has one character for each of `count` classical bits, each 0 or 1.
pub open spec fn is_bit_text(text: Seq<char>, count: nat) -> bool {
    &&& text.len() == count
    &&& forall|j: int| 0 <= j < count ==> #[trigger] text[j] == '0' || text[j] == '1'
}

proof fn lemma_bits_make_bit_text(cbits: Map<usize, i32>, count: nat)
    requires
        are_bits(cbits),
    ensures
        is_bit_text(cbits_text(cbits, count), count),
{
    law_one_digit_per_bit(cbits, count);
}

proof fn lemma_step_keeps_bits(
    inst: Instruction,
    n: usize,
    config: KernelConfig,
    links: LinkGates,
    names_subcircuits: bool,
    before: SvState,
    after: SvState,
    result: Result<CallTally, GateError>,
)
    requires
        steps_to(inst, n, config, links, names_subcircuits, before, after, result),
        are_bits(before.cbits),
    ensures
        are_bits(after.cbits),
    decreases inst,
{
    match inst {
        Instruction::Conditional { condition, op } => {
            if condition_holds(before.cbits, condition) {
                lemma_step_keeps_bits(
                    *op,
                    n,
                    config,
                    links,
                    names_subcircuits,
                    before,
                    after,
                    result,
                );
            }
        },
        _ => {
            let action = choose|action: Result<Action, GateError>| #[trigger]
                is_action_of(inst, n, config, links, names_subcircuits, action) && match action {
                    Ok(act) => after == performed(act, n, before) && result == Ok::<
                        CallTally,
                        GateError,
                    >(calls_of(act, n, before)),
                    Err(e) => after == before && result == Err::<CallTally, GateError>(e),
                };
            match action {
                Ok(act) => {
                    law_classical_bits_stay_bits(act, n, before);
                },
                Err(_) => {},
            }
        },
    }
}

proof fn lemma_run_keeps_bits(
    fused: Seq<FusedInstruction<'_>>,
    n: usize,
    config: KernelConfig,
    links: LinkGates,
    before: SvState,
    after: SvState,
)
    requires
        runs_to(fused, n, config, links, before, after),
        are_bits(before.cbits),
    ensures
        are_bits(after.cbits),
    decreases fused.len(),
{
    if fused.len() > 0 {
        let mid = choose|mid: SvState| #[trigger]
            fused_steps_to(
                fused.last(),
                n,
                config,
                links,
                mid,
                after,
                Ok::<(), GateError>(()),
            ) && runs_to(fused.drop_last(), n, config, links, before, mid);
        lemma_run_keeps_bits(fused.drop_last(), n, config, links, before, mid);
        match fused.last() {
            FusedInstruction::Original(inst) => {
                let calls = choose|calls: Result<CallTally, GateError>| #[trigger]
                    steps_to(*inst, n, config, links, true, mid, after, calls) && match calls {
                        Ok(_) => true,
                        Err(e) => Ok::<(), GateError>(()) == Err::<(), GateError>(e),
                    };
                lemma_step_keeps_bits(*inst, n, config, links, true, mid, after, calls);
            },
            FusedInstruction::Fused1Q { .. } => {},
        }
    }
}

/// The outcome of a shot on a state vector has one digit for each classical bit.
pub proof fn law_shot_outcomes_are_bit_texts(
    fused: Seq<FusedInstruction<'_>>,
    n: usize,
    num_cbits: nat,
    config: KernelConfig,
    links: LinkGates,
    amps: Seq<Complex64>,
    seed: u64,
    text: Seq<char>,
)
    requires
        is_shot_outcome(fused, n, num_cbits, config, links, shot_start(amps, seed), text),
    ensures
        is_bit_text(text, num_cbits),
{
    let start = shot_start(amps, seed);
    let end = choose|end: SvState| #[trigger]
        runs_to(fused, n, config, links, start, end) && text == cbits_text(end.cbits, num_cbits);
    lemma_run_keeps_bits(fused, n, config, links, start, end);
    lemma_bits_make_bit_text(end.cbits, num_cbits);
}

proof fn lemma_mps_step_keeps_bits(
    inst: Instruction,
    ahead: Seq<Instruction>,
    links: LinkGates,
    before: MpsPoint,
    after: MpsPoint,
    res: Result<(), GateError>,
)
    requires
        mps_steps_to(inst, ahead, links, before, after, res),
        are_bits(before.cbits),
    ensures
        are_bits(after.cbits),
    decreases inst,
{
    match inst {
        Instruction::Conditional { condition, op } => {
            if condition_holds(before.cbits, condition) {
                lemma_mps_step_keeps_bits(*op, Seq::empty(), links, before, after, res);
            }
        },
        _ => {
            let action = choose|action: Result<MpsAction, GateError>| #[trigger]
                is_mps_action_of(inst, links, action) && match action {
                    Ok(act) => acts_to(act, ahead, before, after, res),
                    Err(e) => after == before && res == Err::<(), GateError>(e),
                };
            match action {
                Ok(act) => {
                    law_classical_bits_of_mps_stay_bits(act, ahead, before, after, res);
                },
                Err(_) => {},
            }
        },
    }
}

proof fn lemma_mps_run_keeps_bits(
    instructions: Seq<Instruction>,
    count: int,
    links: LinkGates,
    before: MpsPoint,
    after: MpsPoint,
)
    requires
        mps_runs_to(instructions, count, false, links, before, after),
        are_bits(before.cbits),
    ensures
        are_bits(after.cbits),
    decreases count,
{
    if count > 0 {
        let mid = choose|mid: MpsPoint|
            mps_runs_to(instructions, count - 1, false, links, before, mid)
                && #[trigger] mps_steps_to(
                instructions[count - 1],
                instructions.subrange(count, instructions.len() as int),
                links,
                mid,
                after,
                Ok::<(), GateError>(()),
            );
        lemma_mps_run_keeps_bits(instructions, count - 1, links, before, mid);
        lemma_mps_step_keeps_bits(
            instructions[count - 1],
            instructions.subrange(count, instructions.len() as int),
            links,
            mid,
            after,
            Ok::<(), GateError>(()),
        );
    }
}

/// The outcome of a shot on a matrix product state has one digit for each classical bit.
pub proof fn law_mps_outcomes_are_bit_texts(
    instructions: Seq<Instruction>,
    n: usize,
    num_cbits: nat,
    settings: MpsSettings,
    shots: usize,
    seed: u64,
    links: LinkGates,
    key: Seq<char>,
    counters: MpsProfileCounters,
)
    requires
        is_mps_shot(instructions, n, num_cbits, settings, shots, seed, links, key, counters),
    ensures
        is_bit_text(key, num_cbits),
{
    let end = choose|end: MpsPoint| #[trigger]
        mps_ends_at(instructions, false, n, settings, shots, seed, links, end) && key == cbits_text(
            end.cbits,
            num_cbits,
        ) && counters == end.mps.counters;
    let start = choose|start: MpsPoint| #[trigger]
        is_mps_start(start, n, settings, shots, seed) && mps_runs_to(
            instructions,
            instructions.len() as int,
            false,
            links,
            start,
            end,
        );
    lemma_mps_run_keeps_bits(instructions, instructions.len() as int, links, start, end);
    lemma_bits_make_bit_text(end.cbits, num_cbits);
}

proof fn lemma_clifford_run_keeps_bits(
    instructions: Seq<Instruction>,
    n: int,
    start: CliffordShot,
    count: int,
)
    requires
        are_bits(start.cbits),
        0 <= count,
    ensures
        are_bits(clifford_run(instructions, n, start, count).cbits),
    decreases count,
{
    if count > 0 {
        lemma_clifford_run_keeps_bits(instructions, n, start, count - 1);
    }
}

/// The outcome of a shot of a Clifford circuit has one digit for each classical bit.
pub proof fn law_clifford_outcomes_are_bit_texts(circuit: Circuit, seed: u64)
    ensures
        is_bit_text(clifford_outcome(circuit, seed), circuit.cbit_count()),
{
    let n = circuit.qubit_count() as int;
    let instructions = circuit.instructions@;
    let start = fresh_shot(n, seed);
    let end = clifford_run(instructions, n, start, instructions.len() as int);
    lemma_clifford_run_keeps_bits(instructions, n, start, instructions.len() as int);
    lemma_bits_make_bit_text(end.cbits, circuit.cbit_count());
}

/// The key of sampled measurements has one digit for each classical bit.
pub proof fn law_sampled_keys_are_bit_texts(
    values: spec_fn(int) -> bool,
    measurements: Seq<TerminalMeasurement>,
    num_cbits: nat,
)
    requires
        num_cbits <= usize::MAX,
    ensures
        is_bit_text(terminal_key(values, measurements, num_cbits), num_cbits),
{
    if num_cbits > 0 {
        lemma_written_char(values, measurements, measurements.len() as int, num_cbits, 0);
        law_sampled_key_is_text_of_bits(values, measurements, num_cbits);
        lemma_bits_make_bit_text(
            written(values, measurements, measurements.len() as int),
            num_cbits,
        );
    }
}

proof fn lemma_tally_keys_are_bit_texts(keys: Seq<Seq<char>>, count: nat, key: Seq<char>)
    requires
        forall|i: int| 0 <= i < keys.len() ==> is_bit_text(#[trigger] keys[i], count),
        tally(keys).dom().contains(key),
    ensures
        is_bit_text(key, count),
        tally(keys)[key] > 0,
{
    law_tally_counts_occurrences(keys, key);
    lemma_occurrences_bound(keys, key);
    let i = choose|i: int| 0 <= i < keys.len() && keys[i] == key;
    assert(is_bit_text(keys[i], count));
}

/// Every outcome that shots on a state vector report has one digit for each classical bit, and
/// came up at least once.
pub proof fn law_reported_outcomes_are_bit_texts(
    instructions: Seq<Instruction>,
    n: usize,
    num_cbits: nat,
    shots: nat,
    base_seed: u64,
    settings: ShotSettings,
    links: LinkGates,
    report: ShotsReport,
    key: Seq<char>,
)
    requires
        num_cbits <= usize::MAX,
        is_report_of(instructions, n, num_cbits, shots, base_seed, settings, links, report),
        report.counts@.dom().contains(key),
    ensures
        is_bit_text(key, num_cbits),
        report.counts@[key] > 0,
{
    let fused = choose|fused: Seq<FusedInstruction<'_>>| #[trigger]
        is_fused_circuit(instructions, fused) && is_report_of_fused(
            fused,
            n,
            num_cbits,
            shots,
            base_seed,
            settings,
            links,
            report,
        );
    match sampled_measurements(fused, settings) {
        Some(measurements) => {
            let start = shot_start(ground_amps(n), base_seed);
            let end = choose|end: SvState| #[trigger]
                runs_to(without_measurements(fused), n, settings.kernels, links, start, end)
                    && are_terminal_counts(
                    end.amps,
                    measurements,
                    n,
                    num_cbits,
                    shots,
                    base_seed,
                    settings.sampling,
                    report.counts@,
                );
            law_terminal_outcomes_are_bit_texts(
                end.amps,
                measurements,
                n,
                num_cbits,
                shots,
                base_seed,
                settings.sampling,
                report.counts@,
                key,
            );
        },
        None => {
            let keys = choose|keys: Seq<Seq<char>>| #[trigger]
                are_shot_outcomes(
                    fused,
                    n,
                    num_cbits,
                    settings.kernels,
                    links,
                    ground_amps(n),
                    base_seed,
                    keys,
                ) && keys.len() == shots && report.counts@ == tally(keys);
            assert forall|i: int| 0 <= i < keys.len() implies is_bit_text(
                #[trigger] keys[i],
                num_cbits,
            ) by {
                law_shot_outcomes_are_bit_texts(
                    fused,
                    n,
                    num_cbits,
                    settings.kernels,
                    links,
                    ground_amps(n),
                    shot_seed(base_seed, i),
                    keys[i],
                );
            }
            lemma_tally_keys_are_bit_texts(keys, num_cbits, key);
        },
    }
}

/// Every outcome that is sampled at the end has one digit for each classical bit, and came up
/// at least once.
pub proof fn law_terminal_outcomes_are_bit_texts(
    amps: Seq<Complex64>,
    measurements: Seq<TerminalMeasurement>,
    n: usize,
    num_cbits: nat,
    shots: nat,
    base_seed: u64,
    mode: TerminalSamplingMode,
    m: Map<Seq<char>, nat>,
    key: Seq<char>,
)
    requires
        num_cbits <= usize::MAX,
        are_terminal_counts(amps, measurements, n, num_cbits, shots, base_seed, mode, m),
        m.dom().contains(key),
    ensures
        is_bit_text(key, num_cbits),
        m[key] > 0,
{
    if samples_full_state(measurements, n, mode) {
        let keys = basis_keys(measurements, num_cbits);
        let cdf = cumulative(weights(amps));
        law_sampled_outcomes_stand_for_places(cdf, seeded(base_seed), shots, keys, m, key);
        let idx = choose|idx: usize| idx < cdf.len() && #[trigger] keys(idx) == key;
        law_sampled_keys_are_bit_texts(basis_values(idx, measurements), measurements, num_cbits);
    } else {
        let layout = choose|layout: TerminalSamplingLayout| #[trigger]
            is_layout(layout, measurements) && is_sampled_counts(
                cumulative(marginal(amps, n, layout.sampled_qubits@)),
                seeded(base_seed),
                shots,
                sample_keys(measurements, layout, num_cbits),
                m,
            );
        let keys = sample_keys(measurements, layout, num_cbits);
        let cdf = cumulative(marginal(amps, n, layout.sampled_qubits@));
        law_sampled_outcomes_stand_for_places(cdf, seeded(base_seed), shots, keys, m, key);
        let idx = choose|idx: usize| idx < cdf.len() && #[trigger] keys(idx) == key;
        law_sampled_keys_are_bit_texts(
            sample_values(
                idx,
                layout.sampled_qubits@.len() as int,
                layout.measurement_indices@,
            ),
            measurements,
            num_cbits,
        );
    }
}

/// Shots of a Clifford circuit are repeatable: a second call from the same seed has the same
/// counts or stops at the same instruction, whether or not a profile is collected.
pub proof fn law_clifford_counts_are_repeatable(
    circuit: Circuit,
    shots: nat,
    base_seed: u64,
    profiles: (bool, bool),
    first: Result<StabilizerReport, UnsupportedInstruction>,
    second: Result<StabilizerReport, UnsupportedInstruction>,
)
    requires
        is_stabilizer_result(circuit, shots, base_seed, profiles.0, first),
        is_stabilizer_result(circuit, shots, base_seed, profiles.1, second),
    ensures
        first is Ok <==> second is Ok,
        first matches Ok(a) ==> second matches Ok(b) ==> a.counts@ == b.counts@
            && a.counts.total() == b.counts.total(),
        first matches Err(a) ==> second matches Err(b) ==> exists|i: int|
            0 <= i < circuit.instructions@.len() && same_instruction(
                a.instruction,
                #[trigger] circuit.instructions@[i],
            ) && same_instruction(b.instruction, circuit.instructions@[i]),
{
    let instructions = circuit.instructions@;
    if first is Err {
        lemma_unsupported_is_not_clifford(instructions, first->Err_0);
    }
    if second is Err {
        lemma_unsupported_is_not_clifford(instructions, second->Err_0);
    }
    if first is Err && second is Err {
        let a = first->Err_0;
        let b = second->Err_0;
        let i = choose|i: int|
            0 <= i < instructions.len() && #[trigger] all_clifford(instructions, i)
                && !is_clifford(instructions[i]) && same_instruction(
                a.instruction,
                instructions[i],
            );
        let j = choose|j: int|
            0 <= j < instructions.len() && #[trigger] all_clifford(instructions, j)
                && !is_clifford(instructions[j]) && same_instruction(
                b.instruction,
                instructions[j],
            );
        if i < j {
            assert(is_clifford(instructions[i]));
        }
        if j < i {
            assert(is_clifford(instructions[j]));
        }
        assert(i == j);
    }
}

proof fn lemma_unsupported_is_not_clifford(
    instructions: Seq<Instruction>,
    e: UnsupportedInstruction,
)
    requires
        is_first_unsupported(instructions, e),
    ensures
        !all_clifford(instructions, instructions.len() as int),
{
    let i = choose|i: int|
        0 <= i < instructions.len() && #[trigger] all_clifford(instructions, i) && !is_clifford(
            instructions[i],
        ) && same_instruction(e.instruction, instructions[i]);
    if all_clifford(instructions, instructions.len() as int) {
        assert(is_clifford(instructions[i]));
    }
}

/// The counts of a Clifford circuit add up to the number of shots, and each outcome has one
/// digit for each classical bit and came up at least once.
pub proof fn law_clifford_counts_are_of_bit_texts(
    circuit: Circuit,
    shots: nat,
    base_seed: u64,
    profile: bool,
    report: StabilizerReport,
    key: Seq<char>,
)
    requires
        is_stabilizer_result(
            circuit,
            shots,
            base_seed,
            profile,
            Ok::<StabilizerReport, UnsupportedInstruction>(report),
        ),
        report.counts@.dom().contains(key),
    ensures
        report.counts.total() == shots,
        is_bit_text(key, circuit.cbit_count()),
        report.counts@[key] > 0,
{
    let keys = clifford_outcomes(circuit, base_seed, shots);
    assert forall|i: int| 0 <= i < keys.len() implies is_bit_text(
        #[trigger] keys[i],
        circuit.cbit_count(),
    ) by {
        law_clifford_outcomes_are_bit_texts(circuit, shot_seed(base_seed, i));
    }
    lemma_tally_keys_are_bit_texts(keys, circuit.cbit_count(), key);
}

proof fn lemma_both_forms_agree(
    inst: Instruction,
    n: usize,
    config: KernelConfig,
    links: LinkGates,
    before: SvState,
    single: SvState,
    counted: Result<CallTally, GateError>,
    shot: SvState,
    calls: Result<CallTally, GateError>,
)
    requires
        steps_to(inst, n, config, links, false, before, single, counted),
        steps_to(inst, n, config, links, true, before, shot, calls),
    ensures
        counted is Err <==> calls is Err,
        counted is Err ==> single == before && shot == before,
        single.cbits == shot.cbits,
        single.rng == shot.rng,
    decreases inst,
{
    match inst {
        Instruction::Conditional { condition, op } => {
            if condition_holds(before.cbits, condition) {
                lemma_both_forms_agree(
                    *op,
                    n,
                    config,
                    links,
                    before,
                    single,
                    counted,
                    shot,
                    calls,
                );
            }
        },
        _ => {
            let first = choose|action: Result<Action, GateError>| #[trigger]
                is_action_of(inst, n, config, links, false, action) && match action {
                    Ok(act) => single == performed(act, n, before) && counted == Ok::<
                        CallTally,
                        GateError,
                    >(calls_of(act, n, before)),
                    Err(e) => single == before && counted == Err::<CallTally, GateError>(e),
                };
            let second = choose|action: Result<Action, GateError>| #[trigger]
                is_action_of(inst, n, config, links, true, action) && match action {
                    Ok(act) => shot == performed(act, n, before) && calls == Ok::<
                        CallTally,
                        GateError,
                    >(calls_of(act, n, before)),
                    Err(e) => shot == before && calls == Err::<CallTally, GateError>(e),
                };
            assert(first is Ok <==> second is Ok);
        },
    }
}

/// Where it succeeds, an instruction of a shot can lead from one state to another exactly where
/// the same instruction of a single simulation can, with the same calls.
pub proof fn law_single_runs_and_shots_lead_alike(
    inst: Instruction,
    n: usize,
    config: KernelConfig,
    links: LinkGates,
    before: SvState,
    after: SvState,
    calls: CallTally,
)
    ensures
        steps_to(inst, n, config, links, false, before, after, Ok::<CallTally, GateError>(calls))
            <==> steps_to(
            inst,
            n,
            config,
            links,
            true,
            before,
            after,
            Ok::<CallTally, GateError>(calls),
        ),
    decreases inst,
{
    match inst {
        Instruction::Conditional { condition, op } => {
            if condition_holds(before.cbits, condition) {
                law_single_runs_and_shots_lead_alike(*op, n, config, links, before, after, calls);
            }
        },
        _ => {
            assert forall|action: Result<Action, GateError>| action is Ok implies (
            #[trigger] is_action_of(inst, n, config, links, false, action) <==> is_action_of(
                inst,
                n,
                config,
                links,
                true,
                action,
            )) by {}
            assert forall|action: Result<Action, GateError>| action is Ok implies (
            #[trigger] is_action_of(inst, n, config, links, true, action) <==> is_action_of(
                inst,
                n,
                config,
                links,
                false,
                action,
            )) by {}
        },
    }
}

/// An instruction of a single simulation and the same instruction of a shot, from the same
/// point, fail alike and then change nothing; otherwise they leave the same classical bits and
/// the same generator.
pub proof fn law_single_runs_and_shots_agree(
    inst: Instruction,
    n: usize,
    config: KernelConfig,
    links: LinkGates,
    before: SvState,
    single: SvState,
    counted: Result<CallTally, GateError>,
    shot: SvState,
    result: Result<(), GateError>,
)
    requires
        steps_to(inst, n, config, links, false, before, single, counted),
        shot_steps_to(inst, n, config, links, before, shot, result),
    ensures
        counted is Err <==> result is Err,
        counted is Err ==> single == before && shot == before,
        single.cbits == shot.cbits,
        single.rng == shot.rng,
{
    let calls = choose|calls: Result<CallTally, GateError>| #[trigger]
        steps_to(inst, n, config, links, true, before, shot, calls) && match calls {
            Ok(_) => result is Ok,
            Err(e) => result == Err::<(), GateError>(e),
        };
    lemma_both_forms_agree(inst, n, config, links, before, single, counted, shot, calls);
}

proof fn lemma_z_rows_consistent(rows: Seq<Row>, n: int, q: usize)
    requires
        is_consistent(rows, n),
        q < n,
    ensures
        is_consistent(z_rows(rows, n, q), n),
{
    law_s_keeps_consistency(rows, n, q as int);
    law_s_keeps_consistency(s_rows(rows, n, q), n, q as int);
}

proof fn lemma_x_rows_consistent(rows: Seq<Row>, n: int, q: usize)
    requires
        is_consistent(rows, n),
        q < n,
    ensures
        is_consistent(x_rows(rows, n, q), n),
{
    law_h_keeps_consistency(rows, n, q as int);
    lemma_z_rows_consistent(h_rows(rows, n, q), n, q);
    law_h_keeps_consistency(z_rows(h_rows(rows, n, q), n, q), n, q as int);
}

proof fn lemma_clifford_step_consistent(inst: Instruction, n: int, shot: CliffordShot)
    requires
        is_consistent(shot.rows, n),
        acts_within(inst, n),
        inst matches Instruction::Cx { control, target } ==> control != target,
    ensures
        is_consistent(clifford_step(inst, n, shot).rows, n),
{
    let touched = inst.touched();
    if is_clifford(inst) && !(inst is Id) && touched.len() > 0 {
        assert(touched[0] < n);
    }
    if is_clifford(inst) && !(inst is Id) && touched.len() > 1 {
        assert(touched[1] < n);
    }
    let rows = shot.rows;
    match inst {
        Instruction::H { qubit } => {
            law_h_keeps_consistency(rows, n, qubit as int);
        },
        Instruction::S { qubit } => {
            law_s_keeps_consistency(rows, n, qubit as int);
        },
        Instruction::Sdg { qubit } => {
            lemma_z_rows_consistent(rows, n, qubit);
            law_s_keeps_consistency(s_rows(s_rows(rows, n, qubit), n, qubit), n, qubit as int);
        },
        Instruction::X { qubit } => {
            lemma_x_rows_consistent(rows, n, qubit);
        },
        Instruction::Y { qubit } => {
            lemma_x_rows_consistent(rows, n, qubit);
            lemma_z_rows_consistent(x_rows(rows, n, qubit), n, qubit);
        },
        Instruction::Z { qubit } => {
            lemma_z_rows_consistent(rows, n, qubit);
        },
        Instruction::Cx { control, target } => {
            law_cnot_keeps_consistency(rows, n, control as int, target as int);
        },
        Instruction::Measure { qubit, .. } => {
            law_measurement_keeps_consistency(rows, n, qubit as int, shot.rng);
        },
        Instruction::Reset { qubit } => {
            law_measurement_keeps_consistency(rows, n, qubit as int, shot.rng);
            lemma_x_rows_consistent(measured(rows, n, qubit as int, shot.rng).1, n, qubit);
        },
        _ => {},
    }
}

/// Every tableau that a run from the ground state reaches is consistent, as long as no
/// controlled NOT has its control as its target. A run ends before the first instruction that
/// the simulator does not know.
pub proof fn law_clifford_runs_stay_consistent(
    instructions: Seq<Instruction>,
    n: int,
    seed: u64,
    count: int,
)
    requires
        0 <= n,
        0 <= count <= instructions.len(),
        touches_only(instructions, n),
        all_clifford(instructions, count),
        forall|i: int|
            0 <= i < count ==> ((#[trigger] instructions[i]) matches Instruction::Cx {
                control,
                target,
            } ==> control != target),
    ensures
        is_consistent(clifford_run(instructions, n, fresh_shot(n, seed), count).rows, n),
    decreases count,
{
    if count == 0 {
        law_ground_state_is_consistent(n);
    } else {
        law_clifford_runs_stay_consistent(instructions, n, seed, count - 1);
        let inst = instructions[count - 1];
        assert(acts_within(instructions[count - 1], n));
        lemma_clifford_step_consistent(
            inst,
            n,
            clifford_run(instructions, n, fresh_shot(n, seed), count - 1),
        );
    }
}

} // verus!
