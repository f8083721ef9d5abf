//! The simulator with matrix product states.

use std::collections::HashMap;

use num_complex::Complex64;
use rand_chacha::ChaCha8Rng;
use vstd::prelude::*;
use vstd::slice::slice_subrange;

use crate::bits::{bit_mask, dimension};
use crate::circuit::{cbits_text, format_cbits, Circuit};
use crate::complex::{add_complex, complex_add, complex_zero, less_real, real_less, zero};
use crate::counts::{count_in, merge_counts, tally, Counts};
use crate::gate_error::GateError;
use crate::gates::LinkGates;
use crate::instruction::Instruction;
use crate::mps::{is_ground_state, Mps, MpsConfig};
use crate::mps_counters::{no_work, MpsProfileCounters};
use crate::mps_run::{is_mps_runnable, mps_steps_to, run_instruction, MpsPoint};
use crate::mps_state::{amplitude, outcome_share, share_of_one};
use crate::random::{draw_unit, drawn_unit, seed_rng, seeded};
use crate::stabilizer_shots::{at_most, seed_of_shot, shot_seed};
use crate::statevector::{no_calls, CallTally};
use crate::statevector_shots::{CallTimes, SimulationResult};
use crate::terminal::{
    bits_text, clear_bits, has_cbit, key_char, terminal_key, weights, weights_of, writes_cbit,
    TerminalMeasurement, TerminalMeasurementPlan,
};
use crate::text::bit_char;

verus! {

/// How a run is set up.
#[derive(Clone, Copy)]
pub struct MpsSettings {
    pub max_bond_dimension: Option<usize>,
    pub truncation_threshold: Complex64,
    pub config: MpsConfig,
    /// Whether measurements at the end are sampled from one state.
    pub shot_branching: bool,
}

/// The measurements among the first `count` instructions, or nothing if they are not all at
/// the end: where a classical bit is written twice, a gate follows a measurement, or there is a
/// reset or a condition.
pub open spec fn trailing(instructions: Seq<Instruction>, count: int) -> Option<
    Seq<TerminalMeasurement>,
>
    decreases count,
{
    if count <= 0 {
        Some(Seq::empty())
    } else {
        match trailing(instructions, count - 1) {
            None => None,
            Some(before) => match instructions[count - 1] {
                Instruction::Measure { qubit, cbit } => if writes_cbit(before, cbit) {
                    None
                } else {
                    Some(before.push(TerminalMeasurement { qubit, cbit }))
                },
                Instruction::Barrier | Instruction::Classical { .. } => Some(before),
                Instruction::Reset { .. } | Instruction::Conditional { .. } => None,
                _ => if before.len() > 0 {
                    None
                } else {
                    Some(before)
                },
            },
        }
    }
}

/// The measurements that are sampled at the end of a circuit, if there is one and all of them
/// are at the end.
pub open spec fn trailing_plan(instructions: Seq<Instruction>) -> Option<Seq<TerminalMeasurement>> {
    match trailing(instructions, instructions.len() as int) {
        Some(measurements) => if measurements.len() > 0 {
            Some(measurements)
        } else {
            None
        },
        None => None,
    }
}

proof fn lemma_trailing_none(instructions: Seq<Instruction>, i: int, j: int)
    requires
        i <= j,
        trailing(instructions, i) is None,
    ensures
        trailing(instructions, j) is None,
    decreases j - i,
{
    if i < j {
        lemma_trailing_none(instructions, i, j - 1);
    }
}

/// The measurements of a circuit, if all of them are at the end and there is one.
pub fn mps_terminal_measurement_plan(instructions: &[Instruction]) -> (r: Option<
    TerminalMeasurementPlan,
>)
    ensures
        match trailing_plan(instructions@) {
            Some(measurements) => r is Some && r->0.measurements@ == measurements,
            None => r is None,
        },
{
    let mut measurements: Vec<TerminalMeasurement> = Vec::new();
    let mut i: usize = 0;
    while i < instructions.len()
        invariant
            i <= instructions@.len(),
            trailing(instructions@, i as int) == Some(measurements@),
        decreases instructions@.len() - i,
    {
        let possible: bool = match &instructions[i] {
            Instruction::Measure { qubit, cbit } => {
                if has_cbit(&measurements, *cbit) {
                    false
                } else {
                    measurements.push(TerminalMeasurement { qubit: *qubit, cbit: *cbit });
                    true
                }
            },
            Instruction::Barrier | Instruction::Classical { .. } => true,
            Instruction::Reset { .. } | Instruction::Conditional { .. } => false,
            _ => measurements.len() == 0,
        };
        if !possible {
            proof {
                assert(trailing(instructions@, i + 1) is None);
                lemma_trailing_none(instructions@, i + 1, instructions@.len() as int);
            }
            return None;
        }
        i = i + 1;
    }
    if measurements.len() == 0 {
        return None;
    }
    Some(TerminalMeasurementPlan { measurements })
}

/// No two measurements at the end write the same classical bit.
pub proof fn law_trailing_cbits_differ(instructions: Seq<Instruction>, count: int, a: int, b: int)
    requires
        trailing(instructions, count) is Some,
        0 <= a < b < trailing(instructions, count)->0.len(),
    ensures
        trailing(instructions, count)->0[a].cbit != trailing(instructions, count)->0[b].cbit,
    decreases count,
{
    let before = trailing(instructions, count - 1)->0;
    let now = trailing(instructions, count)->0;
    if b < before.len() {
        law_trailing_cbits_differ(instructions, count - 1, a, b);
        assert(now[a] == before[a] && now[b] == before[b]);
    } else {
        assert(now.len() == before.len() + 1);
        assert(before[a] == now[a]);
        if now[a].cbit == now[b].cbit {
            assert(writes_cbit(before, now[b].cbit));
        }
    }
}

/// The sum of the weights of the basis states below `count` that agree with what is fixed and
/// have the bit in `qubit_mask` set or not, added up in order.
pub open spec fn agreeing_sum(
    probabilities: Seq<Complex64>,
    fixed_mask: usize,
    fixed_value: usize,
    qubit_mask: usize,
    set: bool,
    count: int,
) -> Complex64
    decreases count,
{
    if count <= 0 {
        complex_zero()
    } else {
        let so_far = agreeing_sum(
            probabilities,
            fixed_mask,
            fixed_value,
            qubit_mask,
            set,
            count - 1,
        );
        let basis = (count - 1) as usize;
        if basis & fixed_mask == fixed_value && (basis & qubit_mask != 0) == set {
            complex_add(so_far, probabilities[count - 1])
        } else {
            so_far
        }
    }
}

/// Where the sampling of one shot stands: the qubits that are fixed, their values, and the
/// generator.
pub struct FixedBits {
    pub mask: usize,
    pub value: usize,
    pub rng: ChaCha8Rng,
}

/// Whether the next measurement of a shot reads 1.
pub open spec fn samples_one(probabilities: Seq<Complex64>, at: FixedBits, qubit: usize) -> bool {
    let count = probabilities.len() as int;
    real_less(
        drawn_unit(at.rng).0,
        share_of_one(
            agreeing_sum(probabilities, at.mask, at.value, bit_mask(qubit), false, count),
            agreeing_sum(probabilities, at.mask, at.value, bit_mask(qubit), true, count),
        ),
    )
}

/// Where the sampling of one shot stands after the first `count` measurements.
pub open spec fn fixed_after(
    probabilities: Seq<Complex64>,
    measurements: Seq<TerminalMeasurement>,
    seed: u64,
    count: int,
) -> FixedBits
    decreases count,
{
    if count <= 0 {
        FixedBits { mask: 0, value: 0, rng: seeded(seed) }
    } else {
        let before = fixed_after(probabilities, measurements, seed, count - 1);
        let qubit = measurements[count - 1].qubit;
        FixedBits {
            mask: before.mask | bit_mask(qubit),
            value: if samples_one(probabilities, before, qubit) {
                before.value | bit_mask(qubit)
            } else {
                before.value & !bit_mask(qubit)
            },
            rng: drawn_unit(before.rng).1,
        }
    }
}

/// The values that the measurements of one shot read.
pub open spec fn sequential_values(
    probabilities: Seq<Complex64>,
    measurements: Seq<TerminalMeasurement>,
    seed: u64,
) -> spec_fn(int) -> bool {
    |i: int|
        samples_one(
            probabilities,
            fixed_after(probabilities, measurements, seed, i),
            measurements[i].qubit,
        )
}

/// The keys of a number of shots, sampled from a state.
pub open spec fn sequential_keys(
    state: Seq<Complex64>,
    measurements: Seq<TerminalMeasurement>,
    num_cbits: nat,
    shots: nat,
    base_seed: u64,
) -> Seq<Seq<char>> {
    Seq::new(
        shots,
        |shot: int|
            terminal_key(
                sequential_values(weights(state), measurements, shot_seed(base_seed, shot)),
                measurements,
                num_cbits,
            ),
    )
}

/// Adds up the weights of the basis states that agree with what is fixed.
fn sum_agreeing(
    probabilities: &Vec<Complex64>,
    fixed_mask: usize,
    fixed_value: usize,
    qubit_mask: usize,
    set: bool,
) -> (sum: Complex64)
    ensures
        sum == agreeing_sum(
            probabilities@,
            fixed_mask,
            fixed_value,
            qubit_mask,
            set,
            probabilities@.len() as int,
        ),
{
    let mut sum: Complex64 = zero();
    let mut basis: usize = 0;
    while basis < probabilities.len()
        invariant
            basis <= probabilities@.len(),
            sum == agreeing_sum(
                probabilities@,
                fixed_mask,
                fixed_value,
                qubit_mask,
                set,
                basis as int,
            ),
        decreases probabilities@.len() - basis,
    {
        if basis & fixed_mask == fixed_value && (basis & qubit_mask != 0) == set {
            sum = add_complex(sum, probabilities[basis]);
        }
        basis = basis + 1;
    }
    sum
}

/// Whether every measured qubit is one of a machine word.
pub open spec fn measures_below(measurements: Seq<TerminalMeasurement>, n: int) -> bool {
    forall|i: int| 0 <= i < measurements.len() ==> (#[trigger] measurements[i]).qubit < n
}

/// Samples one shot: each measurement in turn, given what the ones before it read.
fn sample_sequentially(
    probabilities: &Vec<Complex64>,
    num_cbits: usize,
    plan: &TerminalMeasurementPlan,
    seed: u64,
) -> (key: String)
    requires
        measures_below(plan.measurements@, usize::BITS as int),
    ensures
        key@ == terminal_key(
            sequential_values(probabilities@, plan.measurements@, seed),
            plan.measurements@,
            num_cbits as nat,
        ),
{
    let ghost measurements = plan.measurements@;
    let ghost values = sequential_values(probabilities@, measurements, seed);
    let mut rng: ChaCha8Rng = seed_rng(seed);
    let mut fixed_mask: usize = 0;
    let mut fixed_value: usize = 0;
    let mut bits: Vec<bool> = clear_bits(num_cbits);
    let mut i: usize = 0;
    while i < plan.measurements.len()
        invariant
            i <= measurements.len(),
            measurements == plan.measurements@,
            measures_below(measurements, usize::BITS as int),
            values == sequential_values(probabilities@, measurements, seed),
            fixed_after(probabilities@, measurements, seed, i as int) == (FixedBits {
                mask: fixed_mask,
                value: fixed_value,
                rng,
            }),
            bits@.len() == num_cbits,
            forall|j: int|
                0 <= j < num_cbits ==> bit_char(#[trigger] bits@[j]) == key_char(
                    values,
                    measurements,
                    i as int,
                    num_cbits as int,
                    j,
                ),
        decreases measurements.len() - i,
    {
        let measurement: TerminalMeasurement = plan.measurements[i];
        assert(measurements[i as int] == measurement);
        let qubit_mask: usize = 1usize << measurement.qubit;
        let p0: Complex64 = sum_agreeing(probabilities, fixed_mask, fixed_value, qubit_mask, false);
        let p1: Complex64 = sum_agreeing(probabilities, fixed_mask, fixed_value, qubit_mask, true);
        let share: Complex64 = outcome_share(p0, p1);
        let outcome: bool = less_real(draw_unit(&mut rng), share);
        assert(outcome == values(i as int));
        fixed_mask = fixed_mask | qubit_mask;
        if outcome {
            fixed_value = fixed_value | qubit_mask;
        } else {
            fixed_value = fixed_value & !qubit_mask;
        }
        if measurement.cbit < num_cbits {
            bits[num_cbits - 1 - measurement.cbit] = outcome;
        }
        i = i + 1;
    }
    let text: String = bits_text(&bits);
    assert(text@ =~= terminal_key(values, measurements, num_cbits as nat));
    text
}

/// Samples the measurements at the end as often as there are shots. Each shot has a seed of its
/// own, and draws once for each measurement.
pub fn sample_terminal_sequential_full_state(
    state: &[Complex64],
    num_cbits: usize,
    plan: &TerminalMeasurementPlan,
    shots: usize,
    base_seed: u64,
) -> (counts: Counts)
    requires
        measures_below(plan.measurements@, usize::BITS as int),
    ensures
        counts.wf(),
        counts.total() == shots,
        counts@ == tally(
            sequential_keys(
                state@,
                plan.measurements@,
                num_cbits as nat,
                shots as nat,
                base_seed,
            ),
        ),
{
    let probabilities: Vec<Complex64> = weights_of(state);
    let mut counts: Counts = Counts::new();
    let ghost keys = sequential_keys(
        state@,
        plan.measurements@,
        num_cbits as nat,
        shots as nat,
        base_seed,
    );
    let mut shot: usize = 0;
    assert(keys.take(0) =~= Seq::empty());
    while shot < shots
        invariant
            shot <= shots,
            keys.len() == shots,
            keys == sequential_keys(
                state@,
                plan.measurements@,
                num_cbits as nat,
                shots as nat,
                base_seed,
            ),
            probabilities@ == weights(state@),
            measures_below(plan.measurements@, usize::BITS as int),
            counts.wf(),
            counts.total() == shot,
            counts@ == tally(keys.take(shot as int)),
        decreases shots - shot,
    {
        let key: String = sample_sequentially(
            &probabilities,
            num_cbits,
            plan,
            seed_of_shot(base_seed, shot),
        );
        proof {
            assert(key@ == keys[shot as int]);
            assert(keys.take(shot + 1).drop_last() =~= keys.take(shot as int));
        }
        counts.add(key, 1);
        shot = shot + 1;
    }
    assert(keys.take(shot as int) =~= keys);
    counts
}

/// Whether running the first `count` instructions can lead from one point to another without an
/// error; measurements may be left out.
pub open spec fn mps_runs_to(
    instructions: Seq<Instruction>,
    count: int,
    skips_measurements: bool,
    links: LinkGates,
    before: MpsPoint,
    after: MpsPoint,
) -> bool
    decreases count,
{
    if count <= 0 {
        after == before
    } else if skips_measurements && instructions[count - 1] is Measure {
        mps_runs_to(instructions, count - 1, skips_measurements, links, before, after)
    } else {
        exists|mid: MpsPoint|
            mps_runs_to(instructions, count - 1, skips_measurements, links, before, mid)
                && #[trigger] mps_steps_to(
                instructions[count - 1],
                instructions.subrange(count, instructions.len() as int),
                links,
                mid,
                after,
                Ok::<(), GateError>(()),
            )
    }
}

/// Whether a run can end with an error: some instructions run, and the next one fails.
pub open spec fn mps_fails_with(
    instructions: Seq<Instruction>,
    skips_measurements: bool,
    links: LinkGates,
    before: MpsPoint,
    e: GateError,
) -> bool {
    exists|i: int, mid: MpsPoint, after: MpsPoint|
        0 <= i < instructions.len() && !(skips_measurements && instructions[i] is Measure)
            && mps_runs_to(instructions, i, skips_measurements, links, before, mid)
            && #[trigger] mps_steps_to(
            instructions[i],
            instructions.subrange(i + 1, instructions.len() as int),
            links,
            mid,
            after,
            Err::<(), GateError>(e),
        )
}

/// Whether every instruction can be run on `n` qubits.
pub open spec fn all_mps_runnable(instructions: Seq<Instruction>, n: int) -> bool {
    forall|i: int| 0 <= i < instructions.len() ==> is_mps_runnable(#[trigger] instructions[i], n)
}

/// Runs some instructions.
fn run_all(
    mps: &mut Mps,
    instructions: &[Instruction],
    skips_measurements: bool,
    cbits: &mut HashMap<usize, i32>,
    rng: &mut ChaCha8Rng,
    links: &LinkGates,
) -> (res: Result<(), GateError>)
    requires
        old(mps).wf(),
        all_mps_runnable(instructions@, old(mps).tensors@.len() as int),
    ensures
        final(mps).wf(),
        final(mps).tensors@.len() == old(mps).tensors@.len(),
        ({
            let before = MpsPoint { mps: *old(mps), cbits: old(cbits)@, rng: *old(rng) };
            let after = MpsPoint { mps: *final(mps), cbits: final(cbits)@, rng: *final(rng) };
            match res {
                Ok(_) => mps_runs_to(
                    instructions@,
                    instructions@.len() as int,
                    skips_measurements,
                    *links,
                    before,
                    after,
                ),
                Err(e) => mps_fails_with(instructions@, skips_measurements, *links, before, e),
            }
        }),
{
    let ghost before = MpsPoint { mps: *mps, cbits: cbits@, rng: *rng };
    let mut i: usize = 0;
    while i < instructions.len()
        invariant
            i <= instructions@.len(),
            mps.wf(),
            mps.tensors@.len() == before.mps.tensors@.len(),
            before == (MpsPoint { mps: *old(mps), cbits: old(cbits)@, rng: *old(rng) }),
            all_mps_runnable(instructions@, before.mps.tensors@.len() as int),
            mps_runs_to(
                instructions@,
                i as int,
                skips_measurements,
                *links,
                before,
                (MpsPoint { mps: *mps, cbits: cbits@, rng: *rng }),
            ),
        decreases instructions@.len() - i,
    {
        let measures: bool = match &instructions[i] {
            Instruction::Measure { .. } => true,
            _ => false,
        };
        if !(skips_measurements && measures) {
            let ghost mid = MpsPoint { mps: *mps, cbits: cbits@, rng: *rng };
            assert(is_mps_runnable(instructions@[i as int], mps.tensors@.len() as int));
            let lookahead: &[Instruction] = slice_subrange(
                instructions,
                i + 1,
                instructions.len(),
            );
            let step: Result<(), GateError> = run_instruction(
                mps,
                &instructions[i],
                lookahead,
                cbits,
                rng,
                links,
            );
            let ghost after = MpsPoint { mps: *mps, cbits: cbits@, rng: *rng };
            match step {
                Ok(unit) => {
                    proof {
                        assert(unit == ());
                        assert(mps_steps_to(
                            instructions@[i + 1 - 1],
                            instructions@.subrange(i + 1, instructions@.len() as int),
                            *links,
                            mid,
                            after,
                            Ok::<(), GateError>(()),
                        ));
                    }
                },
                Err(e) => {
                    assert(mps_steps_to(
                        instructions@[i as int],
                        instructions@.subrange(i + 1, instructions@.len() as int),
                        *links,
                        mid,
                        after,
                        Err::<(), GateError>(e),
                    ));
                    return Err(e);
                },
            }
        }
        i = i + 1;
    }
    Ok(())
}

/// Whether a run starts at a point: all qubits are zero, no classical bit is written, and the
/// generator has a seed.
pub open spec fn is_mps_start(
    start: MpsPoint,
    n: usize,
    settings: MpsSettings,
    shots: usize,
    seed: u64,
) -> bool {
    &&& is_ground_state(
        start.mps,
        n,
        settings.max_bond_dimension,
        settings.truncation_threshold,
        shots,
        settings.config,
    )
    &&& start.cbits == Map::<usize, i32>::empty()
    &&& start.rng == seeded(seed)
}

/// Whether a run from the ground state can end at a point.
pub open spec fn mps_ends_at(
    instructions: Seq<Instruction>,
    skips_measurements: bool,
    n: usize,
    settings: MpsSettings,
    shots: usize,
    seed: u64,
    links: LinkGates,
    end: MpsPoint,
) -> bool {
    exists|start: MpsPoint| #[trigger]
        is_mps_start(start, n, settings, shots, seed) && mps_runs_to(
            instructions,
            instructions.len() as int,
            skips_measurements,
            links,
            start,
            end,
        )
}

/// Whether a run from the ground state can end with a state and classical bits.
pub open spec fn mps_ends_with(
    instructions: Seq<Instruction>,
    skips_measurements: bool,
    n: usize,
    settings: MpsSettings,
    shots: usize,
    seed: u64,
    links: LinkGates,
    mps: Mps,
    cbits: Map<usize, i32>,
) -> bool {
    exists|end: MpsPoint| #[trigger]
        mps_ends_at(instructions, skips_measurements, n, settings, shots, seed, links, end)
            && end.mps == mps && end.cbits == cbits
}

/// Whether a run from the ground state can end with an error.
pub open spec fn mps_run_fails(
    instructions: Seq<Instruction>,
    skips_measurements: bool,
    n: usize,
    settings: MpsSettings,
    shots: usize,
    seed: u64,
    links: LinkGates,
    e: GateError,
) -> bool {
    exists|start: MpsPoint| #[trigger]
        is_mps_start(start, n, settings, shots, seed) && mps_fails_with(
            instructions,
            skips_measurements,
            links,
            start,
            e,
        )
}

/// A run from the ground state: the state and the classical bits that it ends with.
fn run_from_ground(
    instructions: &[Instruction],
    skips_measurements: bool,
    n: usize,
    settings: MpsSettings,
    shots: usize,
    seed: u64,
    links: &LinkGates,
) -> (r: Result<(Mps, HashMap<usize, i32>), GateError>)
    requires
        all_mps_runnable(instructions@, n as int),
    ensures
        match r {
            Ok((mps, cbits)) => mps.wf() && mps.tensors@.len() == n && mps_ends_with(
                instructions@,
                skips_measurements,
                n,
                settings,
                shots,
                seed,
                *links,
                mps,
                cbits@,
            ),
            Err(e) => mps_run_fails(
                instructions@,
                skips_measurements,
                n,
                settings,
                shots,
                seed,
                *links,
                e,
            ),
        },
{
    broadcast use vstd::std_specs::hash::group_hash_axioms;

    let mut mps: Mps = Mps::new(
        n,
        settings.max_bond_dimension,
        settings.truncation_threshold,
        shots,
        settings.config,
    );
    let mut cbits: HashMap<usize, i32> = HashMap::new();
    let mut rng: ChaCha8Rng = seed_rng(seed);
    assert(cbits@ =~= Map::<usize, i32>::empty());
    let ghost start = MpsPoint { mps, cbits: cbits@, rng };
    assert(is_mps_start(start, n, settings, shots, seed));
    match run_all(&mut mps, instructions, skips_measurements, &mut cbits, &mut rng, links) {
        Ok(_) => {
            assert(mps_ends_at(
                instructions@,
                skips_measurements,
                n,
                settings,
                shots,
                seed,
                *links,
                (MpsPoint { mps, cbits: cbits@, rng }),
            ));
            Ok((mps, cbits))
        },
        Err(e) => Err(e),
    }
}

/// Whether a shot can end with these classical bits and counters.
pub open spec fn is_mps_shot(
    instructions: Seq<Instruction>,
    n: usize,
    num_cbits: nat,
    settings: MpsSettings,
    shots: usize,
    seed: u64,
    links: LinkGates,
    key: Seq<char>,
    counters: MpsProfileCounters,
) -> bool {
    exists|end: MpsPoint| #[trigger]
        mps_ends_at(instructions, false, n, settings, shots, seed, links, end) && key == cbits_text(
            end.cbits,
            num_cbits,
        ) && counters == end.mps.counters
}

/// Runs one of some shots, and returns the classical bits that it ends with, what it did and
/// the nanoseconds that its decompositions took.
pub fn run_mps_shot(
    instructions: &[Instruction],
    n: usize,
    num_cbits: usize,
    settings: MpsSettings,
    shots: usize,
    seed: u64,
    links: &LinkGates,
) -> (r: Result<(String, MpsProfileCounters, u64), GateError>)
    requires
        all_mps_runnable(instructions@, n as int),
    ensures
        match r {
            Ok((key, counters, _)) => is_mps_shot(
                instructions@,
                n,
                num_cbits as nat,
                settings,
                shots,
                seed,
                *links,
                key@,
                counters,
            ),
            Err(e) => mps_run_fails(
                instructions@,
                false,
                n,
                settings,
                shots,
                seed,
                *links,
                e,
            ),
        },
{
    match run_from_ground(instructions, false, n, settings, shots, seed, links) {
        Ok((mps, cbits)) => Ok((format_cbits(&cbits, num_cbits), mps.counters, mps.svd_nanos)),
        Err(e) => Err(e),
    }
}

/// The outcomes of some shots, and what they did.
pub struct MpsRunSummary {
    pub counts: Counts,
    pub counters: MpsProfileCounters,
    /// The time that decompositions have taken, in nanoseconds.
    pub svd_nanos: u64,
}

impl MpsRunSummary {
    /// No shots.
    pub fn new() -> (r: MpsRunSummary)
        ensures
            r.counts.wf(),
            r.counts@ == Map::<Seq<char>, nat>::empty(),
            r.counts.total() == 0,
            r.counters == no_work(),
            r.svd_nanos == 0,
    {
        MpsRunSummary {
            counts: Counts::new(),
            counters: MpsProfileCounters::default(),
            svd_nanos: 0,
        }
    }

    /// Adds the outcomes, the counters and the time of other shots.
    pub fn merge(&mut self, other: &MpsRunSummary)
        requires
            old(self).counts.wf(),
            other.counts.wf(),
            old(self).counts.total() + other.counts.total() <= usize::MAX,
        ensures
            final(self).counts.wf(),
            final(self).counts.total() == old(self).counts.total() + other.counts.total(),
            forall|key: Seq<char>|
                #![trigger final(self).counts@.dom().contains(key)]
                final(self).counts@.dom().contains(key) <==> old(
                    self,
                ).counts@.dom().contains(key) || other.counts@.dom().contains(key),
            forall|key: Seq<char>|
                #![trigger final(self).counts@[key]]
                final(self).counts@.dom().contains(key) ==> final(self).counts@[key] == count_in(
                    old(self).counts@,
                    key,
                ) + count_in(other.counts@, key),
            final(self).counters == old(self).counters.merged(other.counters),
            final(self).svd_nanos == at_most((old(self).svd_nanos + other.svd_nanos) as nat),
    {
        merge_counts(&mut self.counts, &other.counts);
        self.counters.merge(&other.counters);
        self.svd_nanos = self.svd_nanos.saturating_add(other.svd_nanos);
    }
}

/// The counters of some shots together.
pub open spec fn work_of(work: Seq<MpsProfileCounters>) -> MpsProfileCounters
    decreases work.len(),
{
    if work.len() == 0 {
        no_work()
    } else {
        work_of(work.drop_last()).merged(work.last())
    }
}

/// Whether `keys` and `work` can be the outcomes and the counters of shots.
pub open spec fn are_mps_shots(
    instructions: Seq<Instruction>,
    n: usize,
    num_cbits: nat,
    settings: MpsSettings,
    shots: usize,
    base_seed: u64,
    links: LinkGates,
    keys: Seq<Seq<char>>,
    work: Seq<MpsProfileCounters>,
) -> bool {
    &&& keys.len() == work.len()
    &&& forall|i: int|
        0 <= i < keys.len() ==> is_mps_shot(
            instructions,
            n,
            num_cbits,
            settings,
            shots,
            shot_seed(base_seed, i),
            links,
            #[trigger] keys[i],
            work[i],
        )
}

/// Whether a summary can be that of shots that were run independently.
pub open spec fn is_independent_summary(
    instructions: Seq<Instruction>,
    n: usize,
    num_cbits: nat,
    settings: MpsSettings,
    shots: usize,
    base_seed: u64,
    links: LinkGates,
    summary: MpsRunSummary,
) -> bool {
    exists|keys: Seq<Seq<char>>, work: Seq<MpsProfileCounters>| #[trigger]
        are_mps_shots(
            instructions,
            n,
            num_cbits,
            settings,
            shots,
            base_seed,
            links,
            keys,
            work,
        ) && keys.len() == shots && summary.counts@ == tally(keys) && summary.counters == work_of(
            work,
        )
}

/// Whether one of some shots can fail with an error.
pub open spec fn some_mps_shot_fails(
    instructions: Seq<Instruction>,
    n: usize,
    settings: MpsSettings,
    shots: usize,
    base_seed: u64,
    links: LinkGates,
    e: GateError,
) -> bool {
    exists|shot: int|
        0 <= shot < shots && #[trigger] mps_run_fails(
            instructions,
            false,
            n,
            settings,
            shots,
            shot_seed(base_seed, shot),
            links,
            e,
        )
}

/// Runs all instructions independently for each shot.
pub fn run_independent_shots(
    instructions: &[Instruction],
    n: usize,
    num_cbits: usize,
    settings: MpsSettings,
    shots: usize,
    base_seed: u64,
    links: &LinkGates,
) -> (r: Result<MpsRunSummary, GateError>)
    requires
        all_mps_runnable(instructions@, n as int),
    ensures
        match r {
            Ok(summary) => summary.counts.wf() && summary.counts.total() == shots
                && is_independent_summary(
                instructions@,
                n,
                num_cbits as nat,
                settings,
                shots,
                base_seed,
                *links,
                summary,
            ),
            Err(e) => some_mps_shot_fails(
                instructions@,
                n,
                settings,
                shots,
                base_seed,
                *links,
                e,
            ),
        },
{
    let mut summary: MpsRunSummary = MpsRunSummary::new();
    let ghost mut keys: Seq<Seq<char>> = Seq::empty();
    let ghost mut work: Seq<MpsProfileCounters> = Seq::empty();
    let mut shot: usize = 0;
    while shot < shots
        invariant
            shot <= shots,
            all_mps_runnable(instructions@, n as int),
            summary.counts.wf(),
            summary.counts.total() == shot,
            keys.len() == shot,
            are_mps_shots(
                instructions@,
                n,
                num_cbits as nat,
                settings,
                shots,
                base_seed,
                *links,
                keys,
                work,
            ),
            summary.counts@ == tally(keys),
            summary.counters == work_of(work),
        decreases shots - shot,
    {
        let seed: u64 = seed_of_shot(base_seed, shot);
        match run_mps_shot(instructions, n, num_cbits, settings, shots, seed, links) {
            Ok((key, counters, svd_nanos)) => {
                proof {
                    let more_keys = keys.push(key@);
                    let more_work = work.push(counters);
                    assert(more_keys.drop_last() =~= keys);
                    assert(more_work.drop_last() =~= work);
                    assert forall|i: int| 0 <= i < more_keys.len() implies is_mps_shot(
                        instructions@,
                        n,
                        num_cbits as nat,
                        settings,
                        shots,
                        shot_seed(base_seed, i),
                        *links,
                        #[trigger] more_keys[i],
                        more_work[i],
                    ) by {
                        if i < keys.len() {
                            assert(more_keys[i] == keys[i]);
                        }
                    }
                    keys = more_keys;
                    work = more_work;
                }
                summary.counts.add(key, 1);
                summary.counters.merge(&counters);
                summary.svd_nanos = summary.svd_nanos.saturating_add(svd_nanos);
            },
            Err(e) => {
                assert(mps_run_fails(
                    instructions@,
                    false,
                    n,
                    settings,
                    shots,
                    shot_seed(base_seed, shot as int),
                    *links,
                    e,
                ));
                return Err(e);
            },
        }
        shot = shot + 1;
    }
    Ok(summary)
}

/// The amplitudes of all basis states of a matrix product state.
pub open spec fn amplitudes(mps: Mps, n: usize) -> Seq<Complex64> {
    Seq::new(
        dimension(n) as nat,
        |basis: int| amplitude(mps.tensors@, mps.position_to_logical@, basis as usize),
    )
}

/// Whether a summary can be that of shots that were sampled from one state.
pub open spec fn is_sampled_summary(
    instructions: Seq<Instruction>,
    measurements: Seq<TerminalMeasurement>,
    n: usize,
    num_cbits: nat,
    settings: MpsSettings,
    shots: usize,
    base_seed: u64,
    links: LinkGates,
    summary: MpsRunSummary,
) -> bool {
    exists|end: MpsPoint| #[trigger]
        mps_ends_at(instructions, true, n, settings, shots, base_seed, links, end)
            && summary.counts@ == tally(
            sequential_keys(amplitudes(end.mps, n), measurements, num_cbits, shots as nat, base_seed),
        ) && summary.counters == no_work().merged(end.mps.counters)
}

/// Runs the instructions once without the measurements, and samples the measurements from the
/// state that they end with.
pub fn run_terminal_measurement_branching(
    instructions: &[Instruction],
    plan: &TerminalMeasurementPlan,
    n: usize,
    num_cbits: usize,
    settings: MpsSettings,
    shots: usize,
    base_seed: u64,
    links: &LinkGates,
) -> (r: Result<MpsRunSummary, GateError>)
    requires
        all_mps_runnable(instructions@, n as int),
        n < usize::BITS,
        measures_below(plan.measurements@, usize::BITS as int),
    ensures
        match r {
            Ok(summary) => summary.counts.wf() && summary.counts.total() == shots
                && is_sampled_summary(
                instructions@,
                plan.measurements@,
                n,
                num_cbits as nat,
                settings,
                shots,
                base_seed,
                *links,
                summary,
            ),
            Err(e) => mps_run_fails(
                instructions@,
                true,
                n,
                settings,
                shots,
                base_seed,
                *links,
                e,
            ),
        },
{
    let (mps, _) = match run_from_ground(
        instructions,
        true,
        n,
        settings,
        shots,
        base_seed,
        links,
    ) {
        Ok(end) => end,
        Err(e) => {
            return Err(e);
        },
    };
    let state: Vec<Complex64> = mps.to_statevector();
    assert(state@ =~= amplitudes(mps, n));
    let counts: Counts = sample_terminal_sequential_full_state(
        state.as_slice(),
        num_cbits,
        plan,
        shots,
        base_seed,
    );
    let mut counters: MpsProfileCounters = MpsProfileCounters::default();
    counters.merge(&mps.counters);
    Ok(MpsRunSummary { counts, counters, svd_nanos: mps.svd_nanos })
}

/// The outcome of some shots, and how they were run.
pub struct MpsReport {
    pub summary: MpsRunSummary,
    /// Whether the measurements were sampled from one state.
    pub shot_branching_used: bool,
}

impl MpsReport {
    /// The name of the way in which the measurements were sampled, if they were.
    pub fn shot_branching_strategy(&self) -> (r: Option<&'static str>)
        ensures
            match r {
                Some(name) => self.shot_branching_used && name@
                    == "terminal_measurement_full_state_batch"@,
                None => !self.shot_branching_used,
            },
    {
        if self.shot_branching_used {
            Some("terminal_measurement_full_state_batch")
        } else {
            None
        }
    }
}

/// Whether the shots of a circuit are sampled from one state.
pub open spec fn uses_branching(circuit: Circuit, settings: MpsSettings) -> bool {
    settings.shot_branching && trailing_plan(circuit.instructions@) is Some
}

/// Whether a circuit can be simulated by shots: its registers fit, every instruction can be
/// run, and a state of which samples are taken is no larger than a state vector can be.
pub open spec fn is_mps_simulable(circuit: Circuit, settings: MpsSettings) -> bool {
    &&& circuit.wf()
    &&& all_mps_runnable(circuit.instructions@, circuit.qubit_count() as int)
    &&& uses_branching(circuit, settings) ==> circuit.qubit_count() < usize::BITS
}

/// Whether a report can be that of some shots of a circuit.
pub open spec fn is_mps_report(
    circuit: Circuit,
    settings: MpsSettings,
    shots: usize,
    base_seed: u64,
    links: LinkGates,
    report: MpsReport,
) -> bool {
    let n = circuit.qubit_count() as usize;
    &&& report.summary.counts.wf()
    &&& report.summary.counts.total() == shots
    &&& report.shot_branching_used == uses_branching(circuit, settings)
    &&& if uses_branching(circuit, settings) {
        is_sampled_summary(
            circuit.instructions@,
            trailing_plan(circuit.instructions@)->0,
            n,
            circuit.cbit_count(),
            settings,
            shots,
            base_seed,
            links,
            report.summary,
        )
    } else {
        is_independent_summary(
            circuit.instructions@,
            n,
            circuit.cbit_count(),
            settings,
            shots,
            base_seed,
            links,
            report.summary,
        )
    }
}

/// Whether some shots of a circuit can fail with an error: the one run of the instructions
/// where the measurements are sampled, and the run of one of the shots otherwise.
pub open spec fn is_mps_failure(
    circuit: Circuit,
    settings: MpsSettings,
    shots: usize,
    base_seed: u64,
    links: LinkGates,
    e: GateError,
) -> bool {
    let n = circuit.qubit_count() as usize;
    if uses_branching(circuit, settings) {
        mps_run_fails(circuit.instructions@, true, n, settings, shots, base_seed, links, e)
    } else {
        some_mps_shot_fails(circuit.instructions@, n, settings, shots, base_seed, links, e)
    }
}

proof fn lemma_trailing_below(instructions: Seq<Instruction>, count: int, n: int)
    requires
        all_mps_runnable(instructions, n),
        0 <= count <= instructions.len(),
        trailing(instructions, count) is Some,
    ensures
        measures_below(trailing(instructions, count)->0, n),
    decreases count,
{
    if count > 0 {
        lemma_trailing_below(instructions, count - 1, n);
        assert(is_mps_runnable(instructions[count - 1], n));
    }
}

/// A simulator with matrix product states.
pub struct MpsSimulator {
    pub seed: Option<u64>,
    pub max_bond_dimension: Option<usize>,
    pub truncation_threshold: Complex64,
}

impl MpsSimulator {
    /// A simulator that starts from a seed; without one a seed is drawn for each call.
    pub fn new(
        seed: Option<u64>,
        max_bond_dimension: Option<usize>,
        truncation_threshold: Complex64,
    ) -> (r: MpsSimulator)
        ensures
            r == (MpsSimulator { seed, max_bond_dimension, truncation_threshold }),
    {
        MpsSimulator { seed, max_bond_dimension, truncation_threshold }
    }

    /// The seed to start from, where `drawn` is the one to take if none was given.
    pub open spec fn seed_or(&self, drawn: u64) -> u64 {
        match self.seed {
            Some(seed) => seed,
            None => drawn,
        }
    }

    /// How a run is set up.
    pub open spec fn setup(&self, config: MpsConfig, shot_branching: bool) -> MpsSettings {
        MpsSettings {
            max_bond_dimension: self.max_bond_dimension,
            truncation_threshold: self.truncation_threshold,
            config,
            shot_branching,
        }
    }

    /// How a run is set up.
    pub fn settings(&self, config: MpsConfig, shot_branching: bool) -> (r: MpsSettings)
        ensures
            r == self.setup(config, shot_branching),
    {
        MpsSettings {
            max_bond_dimension: self.max_bond_dimension,
            truncation_threshold: self.truncation_threshold,
            config,
            shot_branching,
        }
    }

    /// Runs a circuit once from the ground state. `drawn` is the seed to start from if none was
    /// given.
    pub fn simulate(
        &self,
        circuit: &Circuit,
        drawn: u64,
        config: MpsConfig,
        links: &LinkGates,
    ) -> (r: Result<SimulationResult, GateError>)
        requires
            circuit.wf(),
            circuit.qubit_count() < usize::BITS,
            all_mps_runnable(circuit.instructions@, circuit.qubit_count() as int),
        ensures
            match r {
                Ok(result) => is_mps_simulation(
                    *circuit,
                    self.setup(config, false),
                    self.seed_or(drawn),
                    *links,
                    result,
                ),
                Err(e) => mps_run_fails(
                    circuit.instructions@,
                    false,
                    circuit.qubit_count() as usize,
                    self.setup(config, false),
                    1,
                    self.seed_or(drawn),
                    *links,
                    e,
                ),
            },
    {
        let n: usize = circuit.num_qubits();
        let seed: u64 = match self.seed {
            Some(seed) => seed,
            None => drawn,
        };
        let settings: MpsSettings = self.settings(config, false);
        match run_from_ground(
            circuit.instructions.as_slice(),
            false,
            n,
            settings,
            1,
            seed,
            links,
        ) {
            Ok((mps, cbits)) => {
                let sv: Vec<Complex64> = mps.to_statevector();
                assert(sv@ =~= amplitudes(mps, n));
                let result: SimulationResult = SimulationResult {
                    sv,
                    num_qubits: n,
                    cbits,
                    calls: CallTally { one_qubit: 0, n_qubit: 0, measure: 0 },
                    times: CallTimes::none(),
                };
                Ok(result)
            },
            Err(e) => Err(e),
        }
    }

    /// Runs some shots of a circuit. `drawn` is the seed to start from if none was given.
    pub fn simulate_shots(
        &self,
        circuit: &Circuit,
        shots: usize,
        drawn: u64,
        config: MpsConfig,
        shot_branching: bool,
        links: &LinkGates,
    ) -> (r: Result<MpsReport, GateError>)
        requires
            is_mps_simulable(*circuit, self.setup(config, shot_branching)),
        ensures
            match r {
                Ok(report) => is_mps_report(
                    *circuit,
                    self.setup(config, shot_branching),
                    shots,
                    self.seed_or(drawn),
                    *links,
                    report,
                ),
                Err(e) => is_mps_failure(
                    *circuit,
                    self.setup(config, shot_branching),
                    shots,
                    self.seed_or(drawn),
                    *links,
                    e,
                ),
            },
    {
        let n: usize = circuit.num_qubits();
        let num_cbits: usize = circuit.num_cbits();
        let base_seed: u64 = match self.seed {
            Some(seed) => seed,
            None => drawn,
        };
        let settings: MpsSettings = self.settings(config, shot_branching);
        let plan: Option<TerminalMeasurementPlan> = if shot_branching {
            mps_terminal_measurement_plan(circuit.instructions.as_slice())
        } else {
            None
        };
        let used: bool = plan.is_some();
        let summary: Result<MpsRunSummary, GateError> = match &plan {
            Some(plan) => {
                proof {
                    lemma_trailing_below(
                        circuit.instructions@,
                        circuit.instructions@.len() as int,
                        n as int,
                    );
                    assert forall|i: int| 0 <= i < plan.measurements@.len() implies (
                    #[trigger] plan.measurements@[i]).qubit < usize::BITS by {}
                }
                run_terminal_measurement_branching(
                    circuit.instructions.as_slice(),
                    plan,
                    n,
                    num_cbits,
                    settings,
                    shots,
                    base_seed,
                    links,
                )
            },
            None => run_independent_shots(
                circuit.instructions.as_slice(),
                n,
                num_cbits,
                settings,
                shots,
                base_seed,
                links,
            ),
        };
        assert(used == uses_branching(*circuit, settings));
        match summary {
            Ok(summary) => {
                let report: MpsReport = MpsReport { summary, shot_branching_used: used };
                assert(is_mps_report(*circuit, settings, shots, base_seed, *links, report));
                Ok(report)
            },
            Err(e) => Err(e),
        }
    }
}

/// Whether `result` can be what running a circuit once from the ground state gives.
pub open spec fn is_mps_simulation(
    circuit: Circuit,
    settings: MpsSettings,
    seed: u64,
    links: LinkGates,
    result: SimulationResult,
) -> bool {
    let n = circuit.qubit_count() as usize;
    &&& result.num_qubits == n
    &&& result.calls == no_calls()
    &&& exists|end: MpsPoint| #[trigger]
        mps_ends_at(circuit.instructions@, false, n, settings, 1, seed, links, end)
            && result.sv@ == amplitudes(end.mps, n) && result.cbits@ == end.cbits
}

} // verus!
