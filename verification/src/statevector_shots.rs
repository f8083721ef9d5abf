//! Whole simulations with a state vector.

use std::collections::HashMap;
use std::time::Instant;

use num_complex::Complex64;
use rand_chacha::ChaCha8Rng;
use vstd::prelude::*;

use crate::bits::{dimension, lemma_dimension_positive};
use crate::circuit::{cbits_text, format_cbits, Circuit};
use crate::clock::add_time;
use crate::complex::{
    add_complex, complex_add, complex_conj, complex_mul, complex_norm_sqr, complex_one,
    complex_zero, conj_complex, less_real, mul_complex, norm_sqr_complex, one, real_less, zero,
};
use crate::config::KernelConfig;
use crate::counts::{tally, Counts};
use crate::engine::{apply_one_qubit_seq, one_qubit_applied};
use crate::fusion::{
    fuse_circuit, gates_fit, is_fused_circuit, is_fusion, is_gate_below, is_identity_gate,
    is_piece_of,
    law_fusion_keeps_what_is_earlier, law_fusion_stays_on_its_qubits, FusedInstruction, FusedPiece,
};
use crate::gate_error::GateError;
use crate::gate_matrix::single_gate_qubit;
use crate::gates::LinkGates;
use crate::instruction::{same_shape, Instruction};
use crate::measure::{marginal, marginal_probs};
use crate::random::{seed_rng, seeded};
use crate::sampling::{
    all_qubits, binary_keys, chosen_qubits, cumulative, is_sampled_counts,
    law_distribution_of_all_qubits, rng_after, sample_counts,
};
use crate::stabilizer_shots::{seed_of_shot, shot_seed};
use crate::statevector::{
    instruction_uses_statevector_two_qubit_kernel, is_runnable_on, is_unsupported, no_calls, run_instruction,
    run_instruction_par, shot_steps_to, steps_to, uses_kernel, CallTally, SvState,
};
use crate::terminal::{
    basis_keys, deferred, is_layout, sample_keys, sample_terminal_full_state,
    sample_terminal_marginal, samples_full_state, terminal_measurement_plan,
    terminal_measurement_strategy, terminal_measurement_uses_full_state, terminal_sampling_layout,
    weights, TerminalMeasurement, TerminalMeasurementPlan, TerminalSamplingLayout,
    TerminalSamplingMode,
};
use crate::truncation::{
    all_kept, all_numbered, build_count_qubit_truncation, fails_first, is_reduced, is_truncation,
    kept_below, kept_qubits, lemma_new_number_below, lemma_retained_is_numbered, new_number, numbering,
    removed_below, renumbered, retention, QubitTruncation, TruncationError,
};
use crate::wide_gate::qubits_fit;

verus! {

/// Whether a fused instruction can be run on `n` qubits.
pub open spec fn is_fused_runnable(fi: FusedInstruction<'_>, n: int) -> bool {
    match fi {
        FusedInstruction::Fused1Q { qubit, .. } => qubit < n,
        FusedInstruction::Original(inst) => is_runnable_on(*inst, n),
    }
}

/// Whether a fused instruction is a gate that cannot be simulated.
pub open spec fn is_fused_unsupported(fi: FusedInstruction<'_>) -> bool {
    fi matches FusedInstruction::Original(inst) && is_unsupported(*inst)
}

/// Whether none of the first `count` fused instructions is a gate that cannot be simulated.
pub open spec fn fused_reaches(fused: Seq<FusedInstruction<'_>>, count: int) -> bool {
    forall|i: int| 0 <= i < count ==> !is_fused_unsupported(#[trigger] fused[i])
}

/// Whether every fused instruction up to the first one that cannot be simulated can be run on
/// `n` qubits.
pub open spec fn all_fused_runnable(fused: Seq<FusedInstruction<'_>>, n: int) -> bool {
    forall|i: int|
        0 <= i < fused.len() && fused_reaches(fused, i) ==> is_fused_runnable(
            #[trigger] fused[i],
            n,
        )
}

proof fn lemma_ran_is_supported(
    fi: FusedInstruction<'_>,
    n: usize,
    config: KernelConfig,
    links: LinkGates,
    before: SvState,
    after: SvState,
)
    requires
        fused_steps_to(fi, n, config, links, before, after, Ok::<(), GateError>(())),
    ensures
        !is_fused_unsupported(fi),
{
}

/// Whether running a fused instruction leads from one state to another, with a result.
pub open spec fn fused_steps_to(
    fi: FusedInstruction<'_>,
    n: usize,
    config: KernelConfig,
    links: LinkGates,
    before: SvState,
    after: SvState,
    result: Result<(), GateError>,
) -> bool {
    match fi {
        FusedInstruction::Fused1Q { qubit, matrix } => {
            &&& after == (SvState {
                amps: one_qubit_applied(before.amps, matrix, qubit, n, Seq::empty()),
                ..before
            })
            &&& result is Ok
        },
        FusedInstruction::Original(inst) => shot_steps_to(
            *inst,
            n,
            config,
            links,
            before,
            after,
            result,
        ),
    }
}

/// Runs a fused instruction.
pub fn run_fused_par(
    state: &mut [Complex64],
    fi: &FusedInstruction<'_>,
    n: usize,
    cbits: &mut HashMap<usize, i32>,
    rng: &mut ChaCha8Rng,
    config: KernelConfig,
    links: &LinkGates,
) -> (r: Result<(), GateError>)
    requires
        n < usize::BITS,
        dimension(n) <= old(state)@.len(),
        links.wf(),
        is_fused_runnable(*fi, n as int),
    ensures
        final(state)@.len() == old(state)@.len(),
        fused_steps_to(
            *fi,
            n,
            config,
            *links,
            (SvState { amps: old(state)@, cbits: old(cbits)@, rng: *old(rng) }),
            (SvState { amps: final(state)@, cbits: final(cbits)@, rng: *final(rng) }),
            r,
        ),
{
    match fi {
        FusedInstruction::Fused1Q { qubit, matrix } => {
            let none: Vec<(usize, bool)> = Vec::new();
            assert(none@ =~= Seq::<(usize, bool)>::empty());
            apply_one_qubit_seq(state, matrix, *qubit, n, none.as_slice());
            Ok(())
        },
        FusedInstruction::Original(inst) => run_instruction_par(
            state,
            inst,
            n,
            cbits,
            rng,
            config,
            links,
        ),
    }
}

/// The fused instructions without the measurements.
pub open spec fn without_measurements(fused: Seq<FusedInstruction<'_>>) -> Seq<FusedInstruction<'_>>
    decreases fused.len(),
{
    if fused.len() == 0 {
        Seq::empty()
    } else {
        let rest = without_measurements(fused.drop_last());
        if is_measurement(fused.last()) {
            rest
        } else {
            rest.push(fused.last())
        }
    }
}

/// Whether a fused instruction is a measurement.
pub open spec fn is_measurement(fi: FusedInstruction<'_>) -> bool {
    fi matches FusedInstruction::Original(inst) && *inst is Measure
}

/// Whether running some fused instructions leads from one state to another without an error.
pub open spec fn runs_to(
    fused: Seq<FusedInstruction<'_>>,
    n: usize,
    config: KernelConfig,
    links: LinkGates,
    before: SvState,
    after: SvState,
) -> bool
    decreases fused.len(),
{
    if fused.len() == 0 {
        after == before
    } else {
        exists|mid: SvState| #[trigger]
            fused_steps_to(
                fused.last(),
                n,
                config,
                links,
                mid,
                after,
                Ok::<(), GateError>(()),
            ) && runs_to(fused.drop_last(), n, config, links, before, mid)
    }
}

/// Whether running some fused instructions ends with an error: the first `i` run, and the next
/// one fails.
pub open spec fn fails_with(
    fused: Seq<FusedInstruction<'_>>,
    n: usize,
    config: KernelConfig,
    links: LinkGates,
    before: SvState,
    e: GateError,
) -> bool {
    exists|i: int, mid: SvState, after: SvState|
        0 <= i < fused.len() && runs_to(fused.take(i), n, config, links, before, mid)
            && #[trigger] fused_steps_to(
            fused[i],
            n,
            config,
            links,
            mid,
            after,
            Err::<(), GateError>(e),
        )
}

/// The state in which every qubit is 0.
pub open spec fn ground_amps(n: usize) -> Seq<Complex64> {
    Seq::new(
        dimension(n) as nat,
        |i: int|
            if i == 0 {
                complex_one()
            } else {
                complex_zero()
            },
    )
}

/// The state in which every qubit is 0.
pub fn ground_state(n: usize) -> (r: Vec<Complex64>)
    requires
        n < usize::BITS,
    ensures
        r@ == ground_amps(n),
        r@.len() == dimension(n),
{
    let dim: usize = 1usize << n;
    let mut state: Vec<Complex64> = Vec::new();
    let mut i: usize = 0;
    while i < dim
        invariant
            i <= dim,
            dim == dimension(n),
            state@.len() == i,
            forall|j: int| 0 <= j < i ==> #[trigger] state@[j] == ground_amps(n)[j],
        decreases dim - i,
    {
        if i == 0 {
            state.push(one());
        } else {
            state.push(zero());
        }
        i = i + 1;
    }
    assert(state@ =~= ground_amps(n));
    state
}

/// The state of a shot before its first instruction.
pub open spec fn shot_start(amps: Seq<Complex64>, seed: u64) -> SvState {
    SvState { amps, cbits: Map::empty(), rng: seeded(seed) }
}

/// Whether `text` can be the outcome of a shot that starts from a seed.
pub open spec fn is_shot_outcome(
    fused: Seq<FusedInstruction<'_>>,
    n: usize,
    num_cbits: nat,
    config: KernelConfig,
    links: LinkGates,
    start: SvState,
    text: Seq<char>,
) -> bool {
    exists|end: SvState| #[trigger]
        runs_to(fused, n, config, links, start, end) && text == cbits_text(end.cbits, num_cbits)
}

/// Runs the fused instructions of one shot and returns the classical bits that it ends with.
pub fn run_shot(
    initial_state: &[Complex64],
    fused: &[FusedInstruction<'_>],
    n: usize,
    num_cbits: usize,
    seed: u64,
    config: KernelConfig,
    links: &LinkGates,
) -> (r: Result<String, GateError>)
    requires
        n < usize::BITS,
        dimension(n) <= initial_state@.len(),
        links.wf(),
        all_fused_runnable(fused@, n as int),
    ensures
        match r {
            Ok(text) => is_shot_outcome(
                fused@,
                n,
                num_cbits as nat,
                config,
                *links,
                shot_start(initial_state@, seed),
                text@,
            ),
            Err(e) => fails_with(
                fused@,
                n,
                config,
                *links,
                shot_start(initial_state@, seed),
                e,
            ),
        },
{
    broadcast use vstd::std_specs::hash::group_hash_axioms;

    let mut state: Vec<Complex64> = vstd::slice::slice_to_vec(initial_state);
    let mut cbits: HashMap<usize, i32> = HashMap::new();
    let mut rng: ChaCha8Rng = seed_rng(seed);
    let ghost start = shot_start(initial_state@, seed);
    assert(cbits@ =~= Map::<usize, i32>::empty());
    let mut i: usize = 0;
    while i < fused.len()
        invariant
            i <= fused@.len(),
            n < usize::BITS,
            dimension(n) <= state@.len(),
            links.wf(),
            all_fused_runnable(fused@, n as int),
            fused_reaches(fused@, i as int),
            start == shot_start(initial_state@, seed),
            runs_to(
                fused@.take(i as int),
                n,
                config,
                *links,
                start,
                (SvState { amps: state@, cbits: cbits@, rng }),
            ),
        decreases fused@.len() - i,
    {
        let ghost mid = SvState { amps: state@, cbits: cbits@, rng };
        assert(is_fused_runnable(fused@[i as int], n as int));
        let step: Result<(), GateError> = run_fused_par(
            state.as_mut_slice(),
            &fused[i],
            n,
            &mut cbits,
            &mut rng,
            config,
            links,
        );
        let ghost after = SvState { amps: state@, cbits: cbits@, rng };
        match step {
            Ok(_) => {
                proof {
                    let next = fused@.take(i + 1);
                    assert(next.drop_last() =~= fused@.take(i as int));
                    assert(next.last() == fused@[i as int]);
                    assert(fused_steps_to(
                        next.last(),
                        n,
                        config,
                        *links,
                        mid,
                        after,
                        Ok::<(), GateError>(()),
                    ));
                    lemma_ran_is_supported(fused@[i as int], n, config, *links, mid, after);
                }
            },
            Err(e) => {
                assert(fused_steps_to(
                    fused@[i as int],
                    n,
                    config,
                    *links,
                    mid,
                    after,
                    Err::<(), GateError>(e),
                ));
                return Err(e);
            },
        }
        i = i + 1;
    }
    assert(fused@.take(i as int) =~= fused@);
    let text: String = format_cbits(&cbits, num_cbits);
    Ok(text)
}

/// Whether `keys` can be the outcomes of `shots` shots.
pub open spec fn are_shot_outcomes(
    fused: Seq<FusedInstruction<'_>>,
    n: usize,
    num_cbits: nat,
    config: KernelConfig,
    links: LinkGates,
    amps: Seq<Complex64>,
    base_seed: u64,
    keys: Seq<Seq<char>>,
) -> bool {
    forall|i: int|
        0 <= i < keys.len() ==> is_shot_outcome(
            fused,
            n,
            num_cbits,
            config,
            links,
            shot_start(amps, shot_seed(base_seed, i)),
            #[trigger] keys[i],
        )
}

/// Runs all instructions independently for each shot and counts the outcomes.
pub fn run_independent_shots(
    initial_state: &[Complex64],
    fused: &[FusedInstruction<'_>],
    n: usize,
    num_cbits: usize,
    shots: usize,
    base_seed: u64,
    config: KernelConfig,
    links: &LinkGates,
) -> (r: Result<Counts, GateError>)
    requires
        n < usize::BITS,
        dimension(n) <= initial_state@.len(),
        links.wf(),
        all_fused_runnable(fused@, n as int),
    ensures
        match r {
            Ok(counts) => counts.wf() && counts.total() == shots && exists|keys: Seq<Seq<char>>|
                #[trigger] are_shot_outcomes(
                    fused@,
                    n,
                    num_cbits as nat,
                    config,
                    *links,
                    initial_state@,
                    base_seed,
                    keys,
                ) && keys.len() == shots && counts@ == tally(keys),
            Err(e) => exists|shot: int|
                0 <= shot < shots && fails_with(
                    fused@,
                    n,
                    config,
                    *links,
                    #[trigger] shot_start(initial_state@, shot_seed(base_seed, shot)),
                    e,
                ),
        },
{
    let mut counts: Counts = Counts::new();
    let ghost mut keys: Seq<Seq<char>> = Seq::empty();
    let mut shot: usize = 0;
    while shot < shots
        invariant
            shot <= shots,
            n < usize::BITS,
            dimension(n) <= initial_state@.len(),
            links.wf(),
            all_fused_runnable(fused@, n as int),
            counts.wf(),
            counts.total() == shot,
            keys.len() == shot,
            are_shot_outcomes(
                fused@,
                n,
                num_cbits as nat,
                config,
                *links,
                initial_state@,
                base_seed,
                keys,
            ),
            counts@ == tally(keys),
        decreases shots - shot,
    {
        let seed: u64 = seed_of_shot(base_seed, shot);
        match run_shot(initial_state, fused, n, num_cbits, seed, config, links) {
            Ok(text) => {
                proof {
                    let next = keys.push(text@);
                    assert(next.drop_last() =~= keys);
                    assert forall|i: int| 0 <= i < next.len() implies is_shot_outcome(
                        fused@,
                        n,
                        num_cbits as nat,
                        config,
                        *links,
                        shot_start(initial_state@, shot_seed(base_seed, i)),
                        #[trigger] next[i],
                    ) by {
                        if i < keys.len() {
                            assert(next[i] == keys[i]);
                        }
                    }
                    keys = next;
                }
                counts.add(text, 1);
            },
            Err(e) => {
                assert(fails_with(
                    fused@,
                    n,
                    config,
                    *links,
                    shot_start(initial_state@, shot_seed(base_seed, shot as int)),
                    e,
                ));
                return Err(e);
            },
        }
        shot = shot + 1;
    }
    Ok(counts)
}

/// Whether `m` can be the tally of samples of the measurements at the end, drawn from the state
/// `amps`.
pub open spec fn are_terminal_counts(
    amps: Seq<Complex64>,
    measurements: Seq<TerminalMeasurement>,
    n: usize,
    num_cbits: nat,
    shots: nat,
    base_seed: u64,
    mode: TerminalSamplingMode,
    m: Map<Seq<char>, nat>,
) -> bool {
    if samples_full_state(measurements, n, mode) {
        is_sampled_counts(
            cumulative(weights(amps)),
            seeded(base_seed),
            shots,
            basis_keys(measurements, num_cbits),
            m,
        )
    } else {
        exists|layout: TerminalSamplingLayout| #[trigger]
            is_layout(layout, measurements) && is_sampled_counts(
                cumulative(marginal(amps, n, layout.sampled_qubits@)),
                seeded(base_seed),
                shots,
                sample_keys(measurements, layout, num_cbits),
                m,
            )
    }
}

/// Whether the measurements of a plan are on qubits of the state.
pub open spec fn plan_fits(measurements: Seq<TerminalMeasurement>, n: int) -> bool {
    forall|i: int| 0 <= i < measurements.len() ==> (#[trigger] measurements[i]).qubit < n
}

proof fn lemma_few_different_below(qubits: Seq<usize>, n: int)
    requires
        0 <= n,
        qubits_fit(qubits, n),
        forall|a: int, b: int|
            0 <= a < b < qubits.len() ==> #[trigger] qubits[a] != #[trigger] qubits[b],
    ensures
        qubits.len() <= n,
{
    assert(qubits.no_duplicates()) by {
        assert forall|a: int, b: int|
            0 <= a < qubits.len() && 0 <= b < qubits.len() && a != b implies qubits[a]
            != qubits[b] by {
            if a < b {
                assert(qubits[a] != qubits[b]);
            } else {
                assert(qubits[b] != qubits[a]);
            }
        }
    }
    let numbers = qubits.map_values(|q: usize| q as int);
    assert(numbers.no_duplicates()) by {
        assert forall|a: int, b: int|
            0 <= a < numbers.len() && 0 <= b < numbers.len() && a != b implies numbers[a]
            != numbers[b] by {
            assert(qubits[a] != qubits[b]);
        }
    }
    numbers.unique_seq_to_set();
    let all = vstd::set_lib::set_int_range(0, n);
    vstd::set_lib::lemma_int_range(0, n);
    assert(numbers.to_set().subset_of(all)) by {
        assert forall|x: int| numbers.to_set().contains(x) implies all.contains(x) by {
            let i = choose|i: int| 0 <= i < numbers.len() && numbers[i] == x;
            assert(qubits[i] < n);
        }
    }
    vstd::set_lib::lemma_len_subset(numbers.to_set(), all);
}

proof fn lemma_different_qubits_fit(measurements: Seq<TerminalMeasurement>, count: int, n: int)
    requires
        plan_fits(measurements, n),
        0 <= count <= measurements.len(),
    ensures
        qubits_fit(crate::terminal::different_qubits(measurements, count), n),
    decreases count,
{
    if count > 0 {
        lemma_different_qubits_fit(measurements, count - 1, n);
        assert(measurements[count - 1].qubit < n);
    }
}

/// Prepares the state before the measurements once, and samples it as often as there are
/// shots.
pub fn run_terminal_measurement_branching(
    initial_state: &[Complex64],
    fused: &[FusedInstruction<'_>],
    plan: &TerminalMeasurementPlan,
    n: usize,
    num_cbits: usize,
    shots: usize,
    base_seed: u64,
    mode: TerminalSamplingMode,
    config: KernelConfig,
    links: &LinkGates,
) -> (r: Result<Counts, GateError>)
    requires
        n < usize::BITS,
        dimension(n) <= initial_state@.len(),
        links.wf(),
        all_fused_runnable(fused@, n as int),
        fused_reaches(fused@, fused@.len() as int) ==> plan_fits(plan.measurements@, n as int),
    ensures
        match r {
            Ok(counts) => counts.wf() && counts.total() == shots && exists|end: SvState| #[trigger]
                runs_to(
                    without_measurements(fused@),
                    n,
                    config,
                    *links,
                    shot_start(initial_state@, base_seed),
                    end,
                ) && are_terminal_counts(
                    end.amps,
                    plan.measurements@,
                    n,
                    num_cbits as nat,
                    shots as nat,
                    base_seed,
                    mode,
                    counts@,
                ),
            Err(e) => fails_before_measurements(
                fused@,
                n,
                config,
                *links,
                shot_start(initial_state@, base_seed),
                e,
            ),
        },
{
    broadcast use vstd::std_specs::hash::group_hash_axioms;

    let mut state: Vec<Complex64> = vstd::slice::slice_to_vec(initial_state);
    let mut cbits: HashMap<usize, i32> = HashMap::new();
    let mut prefix_rng: ChaCha8Rng = seed_rng(base_seed);
    let ghost start = shot_start(initial_state@, base_seed);
    assert(cbits@ =~= Map::<usize, i32>::empty());
    let mut i: usize = 0;
    assert(without_measurements(fused@.take(0)) =~= Seq::<FusedInstruction<'_>>::empty());
    while i < fused.len()
        invariant
            i <= fused@.len(),
            n < usize::BITS,
            dimension(n) <= state@.len(),
            links.wf(),
            all_fused_runnable(fused@, n as int),
            fused_reaches(fused@, i as int),
            start == shot_start(initial_state@, base_seed),
            runs_to(
                without_measurements(fused@.take(i as int)),
                n,
                config,
                *links,
                start,
                (SvState { amps: state@, cbits: cbits@, rng: prefix_rng }),
            ),
        decreases fused@.len() - i,
    {
        let ghost mid = SvState { amps: state@, cbits: cbits@, rng: prefix_rng };
        proof {
            assert(is_fused_runnable(fused@[i as int], n as int));
            assert(fused@.take(i + 1).drop_last() =~= fused@.take(i as int));
            assert(fused@.take(i + 1).last() == fused@[i as int]);
        }
        let skip: bool = match &fused[i] {
            FusedInstruction::Original(inst) => match inst {
                Instruction::Measure { .. } => true,
                _ => false,
            },
            FusedInstruction::Fused1Q { .. } => false,
        };
        if !skip {
            let step: Result<(), GateError> = run_fused_par(
                state.as_mut_slice(),
                &fused[i],
                n,
                &mut cbits,
                &mut prefix_rng,
                config,
                links,
            );
            let ghost after = SvState { amps: state@, cbits: cbits@, rng: prefix_rng };
            match step {
                Ok(_) => {
                    proof {
                        let now = without_measurements(fused@.take(i as int));
                        let next = without_measurements(fused@.take(i + 1));
                        assert(next == now.push(fused@[i as int]));
                        assert(next.drop_last() =~= now);
                        assert(next.last() == fused@[i as int]);
                        assert(fused_steps_to(
                            next.last(),
                            n,
                            config,
                            *links,
                            mid,
                            after,
                            Ok::<(), GateError>(()),
                        ));
                        lemma_ran_is_supported(fused@[i as int], n, config, *links, mid, after);
                    }
                },
                Err(e) => {
                    assert(fused_steps_to(
                        fused@[i as int],
                        n,
                        config,
                        *links,
                        mid,
                        after,
                        Err::<(), GateError>(e),
                    ));
                    return Err(e);
                },
            }
        }
        i = i + 1;
    }
    assert(fused@.take(i as int) =~= fused@);
    let ghost end = SvState { amps: state@, cbits: cbits@, rng: prefix_rng };
    let layout: TerminalSamplingLayout = terminal_sampling_layout(plan);
    proof {
        lemma_different_qubits_fit(plan.measurements@, plan.measurements@.len() as int, n as int);
        lemma_few_different_below(layout.sampled_qubits@, n as int);
        lemma_dimension_positive(n);
    }
    if terminal_measurement_uses_full_state(&layout, n, mode) {
        let counts: Counts = sample_terminal_full_state(
            state.as_slice(),
            num_cbits,
            plan,
            shots,
            base_seed,
        );
        Ok(counts)
    } else {
        let counts: Counts = sample_terminal_marginal(
            state.as_slice(),
            num_cbits,
            plan,
            &layout,
            n,
            shots,
            base_seed,
        );
        assert(is_layout(layout, plan.measurements@));
        Ok(counts)
    }
}

/// Whether none of the first `count` instructions is a gate that cannot be simulated.
pub open spec fn reaches(instructions: Seq<Instruction>, count: int) -> bool {
    forall|i: int| 0 <= i < count ==> !is_unsupported(#[trigger] instructions[i])
}

/// Whether a circuit can be simulated: its registers fit, it has no more qubits than a state
/// vector can have, and every instruction up to the first one that cannot be simulated can be
/// run.
pub open spec fn is_simulable(circuit: Circuit) -> bool {
    &&& circuit.wf()
    &&& circuit.qubit_count() < usize::BITS
    &&& all_runnable(circuit.instructions@, circuit.qubit_count() as int)
}

/// Whether a simulation removes qubits from a circuit.
pub open spec fn reduces(circuit: Circuit, truncation: bool) -> bool {
    truncation && !all_kept(kept_qubits(circuit))
}

/// Whether an instruction stays when qubits are removed.
pub open spec fn is_retained(inst: Instruction, remap: Seq<Option<usize>>) -> bool {
    retention(inst.touched(), remap) == Ok::<bool, TruncationError>(true)
}

/// Whether none of the first `count` instructions is a gate that stays and cannot be simulated.
pub open spec fn retained_reach(
    instructions: Seq<Instruction>,
    remap: Seq<Option<usize>>,
    count: int,
) -> bool {
    forall|i: int|
        0 <= i < count && is_retained(#[trigger] instructions[i], remap) ==> !is_unsupported(
            instructions[i],
        )
}

/// Whether every instruction that stays, up to the first one that cannot be simulated, can be
/// run on `n` qubits.
pub open spec fn retained_runnable(
    instructions: Seq<Instruction>,
    remap: Seq<Option<usize>>,
    n: int,
) -> bool {
    forall|i: int|
        0 <= i < instructions.len() && is_retained(#[trigger] instructions[i], remap)
            && retained_reach(instructions, remap, i) ==> is_runnable_on(instructions[i], n)
}

/// Whether the shots of a circuit can be simulated. Where qubits are removed, those that stay
/// are no more than a state vector can have, and the instructions that stay can be run.
pub open spec fn is_shot_simulable(circuit: Circuit, truncation: bool) -> bool {
    if reduces(circuit, truncation) {
        let keep = kept_qubits(circuit);
        &&& circuit.wf()
        &&& kept_below(keep, keep.len() as int) < usize::BITS
        &&& retained_runnable(
            circuit.instructions@,
            numbering(keep),
            circuit.qubit_count() as int,
        )
    } else {
        is_simulable(circuit) && gates_fit(circuit.instructions@)
    }
}

/// Whether every instruction up to the first one that cannot be simulated can be run on `n`
/// qubits.
pub open spec fn all_runnable(instructions: Seq<Instruction>, n: int) -> bool {
    forall|i: int|
        0 <= i < instructions.len() && reaches(instructions, i) ==> is_runnable_on(
            #[trigger] instructions[i],
            n,
        )
}

/// A circuit of gates that can all be simulated meets what a simulation by shots asks of it,
/// whether or not qubits are removed, where the qubits of its identities are numbers that can be
/// followed by another one.
pub proof fn law_simulable_circuits_take_shots(circuit: Circuit, truncation: bool)
    requires
        is_simulable(circuit),
        reaches(circuit.instructions@, circuit.instructions@.len() as int),
        gates_fit(circuit.instructions@),
    ensures
        is_shot_simulable(circuit, truncation),
{
    let keep = kept_qubits(circuit);
    crate::truncation::lemma_needed_shape(
        circuit.instructions@,
        0,
        circuit.qubit_count(),
        circuit.cbit_count(),
    );
    crate::truncation::lemma_kept_below_bounds(keep, 0, keep.len() as int);
}

proof fn lemma_single_gate_below(inst: Instruction, n: int)
    requires
        is_runnable_on(inst, n),
    ensures
        is_gate_below(inst, n),
{
    if single_gate_qubit(inst) is Some && !is_identity_gate(inst) {
        assert(inst.touched()[0] < n);
    }
}

/// A stream has a first gate that cannot be simulated, if it has any.
proof fn lemma_first_unsupported(instructions: Seq<Instruction>, count: int) -> (first: int)
    requires
        0 <= count <= instructions.len(),
        !reaches(instructions, count),
    ensures
        0 <= first < count,
        is_unsupported(instructions[first]),
        reaches(instructions, first),
    decreases count,
{
    if reaches(instructions, count - 1) {
        count - 1
    } else {
        lemma_first_unsupported(instructions, count - 1)
    }
}

proof fn lemma_fused_runnable(
    instructions: Seq<Instruction>,
    fused: Seq<FusedInstruction<'_>>,
    n: int,
)
    requires
        is_fused_circuit(instructions, fused),
        instructions.len() <= usize::MAX,
        all_runnable(instructions, n),
    ensures
        all_fused_runnable(fused, n),
{
    let pieces = choose|pieces: Seq<FusedPiece>| #[trigger]
        is_fusion(instructions, pieces) && pieces.len() == fused.len() && forall|i: int|
            0 <= i < fused.len() ==> is_piece_of(#[trigger] fused[i], pieces[i], instructions);
    let end = instructions.len() as int;
    if reaches(instructions, end) {
        assert forall|i: int| 0 <= i < end implies is_gate_below(
            #[trigger] instructions[i],
            n,
        ) by {
            assert(reaches(instructions, i));
            lemma_single_gate_below(instructions[i], n);
        }
        law_fusion_stays_on_its_qubits(instructions, pieces, n);
        assert forall|i: int| 0 <= i < fused.len() implies is_fused_runnable(
            #[trigger] fused[i],
            n,
        ) by {
            assert(is_piece_of(fused[i], pieces[i], instructions));
            match pieces[i] {
                FusedPiece::Original { place } => {
                    assert(reaches(instructions, place as int));
                    assert(is_runnable_on(instructions[place as int], n));
                },
                FusedPiece::Fused1Q { qubit, .. } => {
                    assert(qubit < n);
                },
            }
        }
    } else {
        let first = lemma_first_unsupported(instructions, end);
        assert forall|i: int| 0 <= i < first implies is_gate_below(
            #[trigger] instructions.take(first)[i],
            n,
        ) by {
            assert(reaches(instructions, i));
            assert(instructions.take(first)[i] == instructions[i]);
            lemma_single_gate_below(instructions[i], n);
        }
        let at = law_fusion_keeps_what_is_earlier(instructions, pieces, first, n);
        assert(is_piece_of(fused[at], pieces[at], instructions));
        assert(is_fused_unsupported(fused[at]));
        assert forall|i: int|
            0 <= i < fused.len() && fused_reaches(fused, i) implies is_fused_runnable(
            #[trigger] fused[i],
            n,
        ) by {
            assert(i <= at);
            assert(is_piece_of(fused[i], pieces[i], instructions));
            match pieces[i] {
                FusedPiece::Original { place } => {
                    assert(place <= first);
                    assert(reaches(instructions, place as int));
                    assert(is_runnable_on(instructions[place as int], n));
                },
                FusedPiece::Fused1Q { qubit, .. } => {
                    assert(qubit < n);
                },
            }
        }
    }
}

proof fn lemma_plan_fits(fused: Seq<FusedInstruction<'_>>, count: int, n: int)
    requires
        all_fused_runnable(fused, n),
        0 <= count <= fused.len(),
        fused_reaches(fused, count),
        deferred(fused, count) is Some,
    ensures
        plan_fits(deferred(fused, count)->0, n),
    decreases count,
{
    if count > 0 {
        lemma_plan_fits(fused, count - 1, n);
        let before = deferred(fused, count - 1)->0;
        let now = deferred(fused, count)->0;
        assert(fused_reaches(fused, count - 1));
        assert(is_fused_runnable(fused[count - 1], n));
        assert forall|i: int| 0 <= i < now.len() implies (#[trigger] now[i]).qubit < n by {
            if i < before.len() {
                assert(now[i] == before[i]);
            } else {
                match fused[count - 1] {
                    FusedInstruction::Original(inst) => {
                        assert(inst.touched()[0] < n);
                    },
                    _ => {},
                }
            }
        }
    }
}

proof fn lemma_renumbered_runnable(
    new: Instruction,
    inst: Instruction,
    keep: Seq<bool>,
    n: int,
    kept: int,
)
    requires
        same_shape(new, inst),
        new.touched() == renumbered(inst.touched(), numbering(keep), inst.touched().len() as int),
        all_numbered(inst.touched(), numbering(keep), inst.touched().len() as int),
        is_runnable_on(inst, n),
        kept == kept_below(keep, keep.len() as int),
        keep.len() <= usize::MAX,
    ensures
        is_runnable_on(new, kept),
    decreases inst,
{
    let touched = inst.touched();
    assert forall|j: int| 0 <= j < new.touched().len() implies #[trigger] new.touched()[j] < kept by {
        let q = touched[j];
        assert(new_number(numbering(keep), q) is Some);
        lemma_new_number_below(keep, q as int);
    }
    match (new, inst) {
        (Instruction::Conditional { op: a, .. }, Instruction::Conditional { op: b, .. }) => {
            lemma_renumbered_runnable(*a, *b, keep, n, kept);
        },
        (Instruction::Gate { qubits: a, .. }, Instruction::Gate { qubits: b, .. }) => {
            assert(a@.len() == b@.len());
        },
        _ => {},
    }
}

proof fn lemma_unsupported_stays(new: Instruction, inst: Instruction)
    requires
        same_shape(new, inst),
    ensures
        is_unsupported(new) == is_unsupported(inst),
{
}

proof fn lemma_reduced_reach(
    instructions: Seq<Instruction>,
    remap: Seq<Option<usize>>,
    out: Seq<Instruction>,
)
    requires
        is_reduced(instructions, remap, out),
        reaches(out, out.len() as int),
    ensures
        retained_reach(instructions, remap, instructions.len() as int),
    decreases instructions.len(),
{
    if instructions.len() > 0 {
        let rest = instructions.drop_last();
        let last = instructions.last();
        let keeps = is_retained(last, remap);
        if keeps {
            assert forall|i: int| 0 <= i < out.len() - 1 implies !is_unsupported(
                #[trigger] out.drop_last()[i],
            ) by {
                assert(!is_unsupported(out[i]));
            }
            lemma_reduced_reach(rest, remap, out.drop_last());
            lemma_unsupported_stays(out.last(), last);
            assert(!is_unsupported(out[out.len() - 1]));
        } else {
            lemma_reduced_reach(rest, remap, out);
        }
        assert forall|i: int|
            0 <= i < instructions.len() && is_retained(
                #[trigger] instructions[i],
                remap,
            ) implies !is_unsupported(instructions[i]) by {
            if i < rest.len() {
                assert(rest[i] == instructions[i]);
            }
        }
    }
}

proof fn lemma_reduced_runnable(
    instructions: Seq<Instruction>,
    keep: Seq<bool>,
    out: Seq<Instruction>,
    n: int,
    kept: int,
)
    requires
        is_reduced(instructions, numbering(keep), out),
        retained_runnable(instructions, numbering(keep), n),
        kept == kept_below(keep, keep.len() as int),
        keep.len() <= usize::MAX,
        kept < usize::BITS,
    ensures
        all_runnable(out, kept),
        gates_fit(out),
    decreases instructions.len(),
{
    if instructions.len() > 0 {
        let remap = numbering(keep);
        let rest = instructions.drop_last();
        let last = instructions.last();
        assert forall|i: int|
            0 <= i < rest.len() && is_retained(#[trigger] rest[i], remap) && retained_reach(
                rest,
                remap,
                i,
            ) implies is_runnable_on(rest[i], n) by {
            assert(rest[i] == instructions[i]);
            assert forall|j: int|
                0 <= j < i && is_retained(
                    #[trigger] instructions[j],
                    remap,
                ) implies !is_unsupported(instructions[j]) by {
                assert(rest[j] == instructions[j]);
            }
        }
        assert(instructions[instructions.len() - 1] == last);
        match retention(last.touched(), remap) {
            Ok(true) => {
                let shorter = out.drop_last();
                let end = out.len() - 1;
                lemma_reduced_runnable(rest, keep, shorter, n, kept);
                if last.touched().len() > 0 {
                    lemma_retained_is_numbered(last.touched(), remap);
                }
                let new = out.last();
                assert forall|j: int| 0 <= j < new.touched().len() implies #[trigger] new.touched()[j]
                    < kept by {
                    assert(new_number(remap, last.touched()[j]) is Some);
                    lemma_new_number_below(keep, last.touched()[j] as int);
                }
                if single_gate_qubit(new) is Some {
                    assert(new.touched()[0] < kept);
                }
                assert forall|i: int| 0 <= i < out.len() && reaches(out, i) implies is_runnable_on(
                    #[trigger] out[i],
                    kept,
                ) by {
                    assert forall|j: int| 0 <= j < i implies !is_unsupported(
                        #[trigger] shorter[j],
                    ) by {
                        assert(shorter[j] == out[j]);
                    }
                    if i < end {
                        assert(shorter[i] == out[i]);
                    } else {
                        lemma_reduced_reach(rest, remap, shorter);
                        assert forall|j: int|
                            0 <= j < rest.len() && is_retained(
                                #[trigger] instructions[j],
                                remap,
                            ) implies !is_unsupported(instructions[j]) by {
                            assert(rest[j] == instructions[j]);
                        }
                        assert(retained_reach(instructions, remap, instructions.len() - 1));
                        lemma_renumbered_runnable(new, last, keep, n, kept);
                    }
                }
                assert forall|i: int| 0 <= i < out.len() implies (single_gate_qubit(
                    #[trigger] out[i],
                ) matches Some(q) ==> q < usize::MAX) by {
                    if i < end {
                        assert(shorter[i] == out[i]);
                    }
                }
            },
            Ok(false) => {
                lemma_reduced_runnable(rest, keep, out, n, kept);
            },
            Err(_) => {},
        }
    }
}

/// What shots are run with.
#[derive(Clone, Copy, Debug, PartialEq, Eq, Structural)]
pub struct ShotSettings {
    pub kernels: KernelConfig,
    /// Whether qubits that cannot influence the counts are removed.
    pub truncation: bool,
    /// Whether measurements at the end are sampled.
    pub branching: bool,
    /// How they are sampled.
    pub sampling: TerminalSamplingMode,
}

/// Why a simulation failed.
pub enum SimulationError {
    Truncation(TruncationError),
    Gate(GateError),
}

impl SimulationError {
    /// The text of the error.
    pub fn message(&self) -> (r: String)
        ensures
            r@ == match *self {
                SimulationError::Truncation(e) => e.text(),
                SimulationError::Gate(e) => e.text(),
            },
    {
        match self {
            SimulationError::Truncation(e) => e.message(),
            SimulationError::Gate(e) => e.message(),
        }
    }
}

/// The counts of a simulation, and how they came about.
pub struct ShotsReport {
    pub counts: Counts,
    /// The number of qubits of the circuit.
    pub original_num_qubits: usize,
    /// The number of qubits that were simulated.
    pub effective_num_qubits: usize,
    /// The qubits that were removed, if any were.
    pub removed_qubits: Option<Vec<usize>>,
    /// The number of instructions after fusion.
    pub num_instructions: usize,
    /// Whether a specialised kernel was used.
    pub kernels_used: bool,
    /// How the measurements at the end were sampled, if they were.
    pub strategy: Option<&'static str>,
    /// The time that fusion took, in nanoseconds.
    pub fusion_nanos: u64,
}

/// Whether counts and what is reported of them come from running the instructions of one
/// circuit.
pub open spec fn is_report_of(
    instructions: Seq<Instruction>,
    n: usize,
    num_cbits: nat,
    shots: nat,
    base_seed: u64,
    settings: ShotSettings,
    links: LinkGates,
    report: ShotsReport,
) -> bool {
    exists|fused: Seq<FusedInstruction<'_>>| #[trigger]
        is_fused_circuit(instructions, fused) && is_report_of_fused(
            fused,
            n,
            num_cbits,
            shots,
            base_seed,
            settings,
            links,
            report,
        )
}

/// The measurements that are sampled at the end, if sampling is asked for and possible.
pub open spec fn sampled_measurements(
    fused: Seq<FusedInstruction<'_>>,
    settings: ShotSettings,
) -> Option<Seq<TerminalMeasurement>> {
    if settings.branching {
        match deferred(fused, fused.len() as int) {
            Some(measurements) => if measurements.len() > 0 {
                Some(measurements)
            } else {
                None
            },
            None => None,
        }
    } else {
        None
    }
}

/// Whether counts and what is reported of them come from running fused instructions.
pub open spec fn is_report_of_fused(
    fused: Seq<FusedInstruction<'_>>,
    n: usize,
    num_cbits: nat,
    shots: nat,
    base_seed: u64,
    settings: ShotSettings,
    links: LinkGates,
    report: ShotsReport,
) -> bool {
    &&& report.num_instructions == fused.len()
    &&& report.kernels_used == (settings.kernels.two_qubit_kernels && exists|i: int|
        0 <= i < fused.len() && fused_uses_kernel(#[trigger] fused[i]))
    &&& match sampled_measurements(fused, settings) {
        Some(measurements) => {
            &&& report.strategy is Some
            &&& report.strategy->0@ == if samples_full_state(measurements, n, settings.sampling) {
                "terminal_measurement_full_state_batch"@
            } else {
                "terminal_measurement_marginal_batch"@
            }
            &&& exists|end: SvState| #[trigger]
                runs_to(
                    without_measurements(fused),
                    n,
                    settings.kernels,
                    links,
                    shot_start(ground_amps(n), base_seed),
                    end,
                ) && are_terminal_counts(
                    end.amps,
                    measurements,
                    n,
                    num_cbits,
                    shots,
                    base_seed,
                    settings.sampling,
                    report.counts@,
                )
        },
        None => {
            &&& report.strategy is None
            &&& exists|keys: Seq<Seq<char>>| #[trigger]
                are_shot_outcomes(
                    fused,
                    n,
                    num_cbits,
                    settings.kernels,
                    links,
                    ground_amps(n),
                    base_seed,
                    keys,
                ) && keys.len() == shots && report.counts@ == tally(keys)
        },
    }
}

/// Whether a run of fused instructions fails at one that is not a measurement, while the state
/// before the measurements is prepared.
pub open spec fn fails_before_measurements(
    fused: Seq<FusedInstruction<'_>>,
    n: usize,
    config: KernelConfig,
    links: LinkGates,
    before: SvState,
    e: GateError,
) -> bool {
    exists|i: int, mid: SvState, after: SvState|
        0 <= i < fused.len() && !is_measurement(fused[i]) && runs_to(
            without_measurements(fused.take(i)),
            n,
            config,
            links,
            before,
            mid,
        ) && #[trigger] fused_steps_to(
            fused[i],
            n,
            config,
            links,
            mid,
            after,
            Err::<(), GateError>(e),
        )
}

/// Whether running the instructions of a circuit fails with an error: at an instruction of
/// some shot, or while the state before the measurements is prepared.
pub open spec fn is_failure_of(
    instructions: Seq<Instruction>,
    n: usize,
    shots: nat,
    base_seed: u64,
    settings: ShotSettings,
    links: LinkGates,
    e: GateError,
) -> bool {
    exists|fused: Seq<FusedInstruction<'_>>| #[trigger]
        is_fused_circuit(instructions, fused) && match sampled_measurements(fused, settings) {
            Some(_) => fails_before_measurements(
                fused,
                n,
                settings.kernels,
                links,
                shot_start(ground_amps(n), base_seed),
                e,
            ),
            None => exists|shot: int|
                0 <= shot < shots && fails_with(
                    fused,
                    n,
                    settings.kernels,
                    links,
                    #[trigger] shot_start(ground_amps(n), shot_seed(base_seed, shot)),
                    e,
                ),
        }
}

/// Whether a fused instruction uses one of the specialised kernels where they are enabled.
pub open spec fn fused_uses_kernel(fi: FusedInstruction<'_>) -> bool {
    fi matches FusedInstruction::Original(inst) && uses_kernel(*inst)
}

/// Whether a fused instruction uses one of the specialised kernels where they are enabled.
pub fn fused_instruction_uses_statevector_two_qubit_kernel(fi: &FusedInstruction<'_>) -> (r: bool)
    ensures
        r == fused_uses_kernel(*fi),
{
    match fi {
        FusedInstruction::Original(inst) => instruction_uses_statevector_two_qubit_kernel(inst),
        FusedInstruction::Fused1Q { .. } => false,
    }
}

fn any_uses_kernel(fused: &[FusedInstruction<'_>]) -> (r: bool)
    ensures
        r == exists|i: int| 0 <= i < fused@.len() && fused_uses_kernel(#[trigger] fused@[i]),
{
    let mut i: usize = 0;
    while i < fused.len()
        invariant
            i <= fused@.len(),
            forall|j: int| 0 <= j < i ==> !fused_uses_kernel(#[trigger] fused@[j]),
        decreases fused@.len() - i,
    {
        if fused_instruction_uses_statevector_two_qubit_kernel(&fused[i]) {
            return true;
        }
        i = i + 1;
    }
    false
}

/// Runs the instructions of a circuit on `n` qubits from the ground state.
fn run_circuit_shots(
    instructions: &Vec<Instruction>,
    n: usize,
    num_cbits: usize,
    shots: usize,
    base_seed: u64,
    settings: ShotSettings,
    links: &LinkGates,
    original_num_qubits: usize,
    removed_qubits: Option<Vec<usize>>,
) -> (r: Result<ShotsReport, GateError>)
    requires
        n < usize::BITS,
        all_runnable(instructions@, n as int),
        gates_fit(instructions@),
        links.wf(),
    ensures
        match r {
            Ok(report) => {
                &&& report.counts.wf()
                &&& report.counts.total() == shots
                &&& report.original_num_qubits == original_num_qubits
                &&& report.effective_num_qubits == n
                &&& report.removed_qubits == removed_qubits
                &&& is_report_of(
                    instructions@,
                    n,
                    num_cbits as nat,
                    shots as nat,
                    base_seed,
                    settings,
                    *links,
                    report,
                )
            },
            Err(e) => is_failure_of(
                instructions@,
                n,
                shots as nat,
                base_seed,
                settings,
                *links,
                e,
            ),
        },
{
    assert(instructions.len() <= usize::MAX);
    let mut fusion_nanos: u64 = 0;
    let start: Instant = Instant::now();
    let fused: Vec<FusedInstruction<'_>> = fuse_circuit(instructions.as_slice());
    add_time(&mut fusion_nanos, &start);
    proof {
        lemma_fused_runnable(instructions@, fused@, n as int);
    }
    let initial_state: Vec<Complex64> = ground_state(n);
    let kernels_used: bool = settings.kernels.two_qubit_kernels && any_uses_kernel(
        fused.as_slice(),
    );
    let plan: Option<TerminalMeasurementPlan> = if settings.branching {
        terminal_measurement_plan(fused.as_slice())
    } else {
        None
    };
    match plan {
        Some(plan) => {
            proof {
                if fused_reaches(fused@, fused@.len() as int) {
                    lemma_plan_fits(fused@, fused@.len() as int, n as int);
                }
            }
            let strategy: &'static str = terminal_measurement_strategy(
                &plan,
                n,
                settings.sampling,
            );
            match run_terminal_measurement_branching(
                initial_state.as_slice(),
                fused.as_slice(),
                &plan,
                n,
                num_cbits,
                shots,
                base_seed,
                settings.sampling,
                settings.kernels,
                links,
            ) {
                Ok(counts) => {
                    let report: ShotsReport = ShotsReport {
                        counts,
                        original_num_qubits,
                        effective_num_qubits: n,
                        removed_qubits,
                        num_instructions: fused.len(),
                        kernels_used,
                        strategy: Some(strategy),
                        fusion_nanos,
                    };
                    assert(is_report_of_fused(
                        fused@,
                        n,
                        num_cbits as nat,
                        shots as nat,
                        base_seed,
                        settings,
                        *links,
                        report,
                    ));
                    Ok(report)
                },
                Err(e) => Err(e),
            }
        },
        None => match run_independent_shots(
            initial_state.as_slice(),
            fused.as_slice(),
            n,
            num_cbits,
            shots,
            base_seed,
            settings.kernels,
            links,
        ) {
            Ok(counts) => {
                let report: ShotsReport = ShotsReport {
                    counts,
                    original_num_qubits,
                    effective_num_qubits: n,
                    removed_qubits,
                    num_instructions: fused.len(),
                    kernels_used,
                    strategy: None,
                    fusion_nanos,
                };
                assert(is_report_of_fused(
                    fused@,
                    n,
                    num_cbits as nat,
                    shots as nat,
                    base_seed,
                    settings,
                    *links,
                    report,
                ));
                Ok(report)
            },
            Err(e) => Err(e),
        },
    }
}

/// The time that calls took, in nanoseconds. An instruction that measures counts as a
/// measurement.
#[derive(Clone, Copy, Debug, PartialEq, Eq, Structural)]
pub struct CallTimes {
    pub one_qubit: u64,
    pub n_qubit: u64,
    pub measure: u64,
}

impl CallTimes {
    /// No time.
    pub fn none() -> (r: CallTimes)
        ensures
            r == (CallTimes { one_qubit: 0, n_qubit: 0, measure: 0 }),
    {
        CallTimes { one_qubit: 0, n_qubit: 0, measure: 0 }
    }

    /// Adds the time since a moment to that of the calls that were made.
    fn add(&mut self, calls: CallTally, since: &Instant)
        ensures
            final(self).one_qubit >= old(self).one_qubit,
            final(self).n_qubit >= old(self).n_qubit,
            final(self).measure >= old(self).measure,
            calls == no_calls() ==> *final(self) == *old(self),
    {
        let mut one_qubit: u64 = self.one_qubit;
        let mut n_qubit: u64 = self.n_qubit;
        let mut measure: u64 = self.measure;
        if calls.measure > 0 {
            add_time(&mut measure, since);
        } else if calls.n_qubit > 0 {
            add_time(&mut n_qubit, since);
        } else if calls.one_qubit > 0 {
            add_time(&mut one_qubit, since);
        }
        *self = CallTimes { one_qubit, n_qubit, measure };
    }
}

/// The result of a single simulation.
pub struct SimulationResult {
    /// The amplitudes.
    pub sv: Vec<Complex64>,
    pub num_qubits: usize,
    /// The classical bits that were written.
    pub cbits: HashMap<usize, i32>,
    /// The calls made.
    pub calls: CallTally,
    /// The time that the calls took, if they were timed.
    pub times: CallTimes,
}

/// The inner product of the first `count` amplitudes of two states, added up in order.
pub open spec fn overlap(a: Seq<Complex64>, b: Seq<Complex64>, count: nat) -> Complex64
    decreases count,
{
    if count == 0 {
        complex_zero()
    } else {
        complex_add(
            overlap(a, b, (count - 1) as nat),
            complex_mul(complex_conj(a[count - 1]), b[count - 1]),
        )
    }
}

/// The entries of a distribution with a positive probability, in order.
pub open spec fn positive_entries(probs: Seq<Complex64>, count: int) -> Seq<(usize, Complex64)>
    decreases count,
{
    if count <= 0 {
        Seq::empty()
    } else if real_less(complex_zero(), probs[count - 1]) {
        positive_entries(probs, count - 1).push(((count - 1) as usize, probs[count - 1]))
    } else {
        positive_entries(probs, count - 1)
    }
}

impl SimulationResult {
    /// The values of the given qubits, or of all qubits in descending order, that have a
    /// positive probability. The first qubit is the most significant bit of a value.
    pub fn probabilities(&self, qubits: Option<&[usize]>) -> (r: Vec<(usize, Complex64)>)
        requires
            self.num_qubits < usize::BITS,
            qubits is Some ==> qubits->0@.len() < usize::BITS && qubits_fit(
                qubits->0@,
                usize::BITS as int,
            ),
        ensures
            ({
                let probs = marginal(
                    self.sv@,
                    self.num_qubits,
                    chosen_qubits(qubits, self.num_qubits),
                );
                r@ == positive_entries(probs, probs.len() as int)
            }),
            qubits is None && dimension(self.num_qubits) <= self.sv@.len() ==> ({
                let size = dimension(self.num_qubits) as int;
                r@ == positive_entries(weights(self.sv@.take(size)), size)
            }),
    {
        let all: Vec<usize>;
        let qs: &[usize] = match qubits {
            Some(qs) => qs,
            None => {
                all = all_qubits(self.num_qubits);
                all.as_slice()
            },
        };
        let probs: Vec<Complex64> = marginal_probs(self.sv.as_slice(), self.num_qubits, qs);
        let mut out: Vec<(usize, Complex64)> = Vec::new();
        let mut j: usize = 0;
        while j < probs.len()
            invariant
                j <= probs@.len(),
                out@ == positive_entries(probs@, j as int),
            decreases probs@.len() - j,
        {
            if less_real(zero(), probs[j]) {
                out.push((j, probs[j]));
            }
            j = j + 1;
        }
        proof {
            if qubits is None && dimension(self.num_qubits) <= self.sv@.len() {
                law_distribution_of_all_qubits(self.sv@, self.num_qubits);
                assert(probs@ =~= weights(self.sv@.take(dimension(self.num_qubits) as int)));
            }
        }
        out
    }

    /// Samples `shots` values of the given qubits, or of all qubits in descending order. The
    /// first qubit is the leftmost digit of an outcome.
    pub fn counts(&self, shots: usize, qubits: Option<&[usize]>, rng: &mut ChaCha8Rng) -> (counts:
        Counts)
        requires
            self.num_qubits < usize::BITS,
            qubits is Some ==> qubits->0@.len() < usize::BITS && qubits_fit(
                qubits->0@,
                usize::BITS as int,
            ),
        ensures
            counts.wf(),
            counts.total() == shots,
            *final(rng) == rng_after(*old(rng), shots as nat),
            is_sampled_counts(
                cumulative(marginal(self.sv@, self.num_qubits, chosen_qubits(qubits, self.num_qubits))),
                *old(rng),
                shots as nat,
                binary_keys(chosen_qubits(qubits, self.num_qubits).len()),
                counts@,
            ),
    {
        sample_counts(self.sv.as_slice(), self.num_qubits, shots, rng, qubits)
    }

    /// The squared modulus of the inner product with another state, a real number; zero where
    /// the states have different sizes.
    pub fn fidelity(&self, other: &[Complex64]) -> (r: Complex64)
        ensures
            r == if other@.len() == self.sv@.len() {
                complex_norm_sqr(overlap(self.sv@, other@, other@.len()))
            } else {
                complex_zero()
            },
    {
        if other.len() != self.sv.len() {
            return zero();
        }
        let mut dot: Complex64 = zero();
        let mut i: usize = 0;
        while i < other.len()
            invariant
                i <= other@.len(),
                other@.len() == self.sv@.len(),
                dot == overlap(self.sv@, other@, i as nat),
            decreases other@.len() - i,
        {
            dot = add_complex(dot, mul_complex(conj_complex(self.sv[i]), other[i]));
            i = i + 1;
        }
        norm_sqr_complex(dot)
    }
}

/// The sum of two tallies.
pub open spec fn added(a: CallTally, b: CallTally) -> CallTally {
    CallTally {
        one_qubit: (a.one_qubit + b.one_qubit) as u64,
        n_qubit: (a.n_qubit + b.n_qubit) as u64,
        measure: (a.measure + b.measure) as u64,
    }
}

/// Whether running the first `count` instructions leads from one state to another without an
/// error, with a tally of the calls.
pub open spec fn simulates_to(
    instructions: Seq<Instruction>,
    count: int,
    n: usize,
    config: KernelConfig,
    links: LinkGates,
    before: SvState,
    after: SvState,
    calls: CallTally,
) -> bool
    decreases count,
{
    if count <= 0 {
        after == before && calls == no_calls()
    } else {
        exists|mid: SvState, earlier: CallTally, last: CallTally|
            simulates_to(
                instructions,
                count - 1,
                n,
                config,
                links,
                before,
                mid,
                earlier,
            ) && #[trigger] steps_to(
                instructions[count - 1],
                n,
                config,
                links,
                false,
                mid,
                after,
                Ok::<CallTally, GateError>(last),
            ) && calls == #[trigger] added(earlier, last)
    }
}

/// Whether `result` is what running a circuit once from the ground state gives.
pub open spec fn is_simulation(
    circuit: Circuit,
    seed: u64,
    config: KernelConfig,
    links: LinkGates,
    result: SimulationResult,
) -> bool {
    let n = circuit.qubit_count() as usize;
    &&& result.num_qubits == n
    &&& result.sv@.len() == dimension(n)
    &&& exists|end: SvState| #[trigger]
        simulates_to(
            circuit.instructions@,
            circuit.instructions@.len() as int,
            n,
            config,
            links,
            shot_start(ground_amps(n), seed),
            end,
            result.calls,
        ) && end.amps == result.sv@ && end.cbits == result.cbits@
}

/// Whether running a circuit once from the ground state fails with an error: some instructions
/// run, and the next one cannot be simulated.
pub open spec fn is_failed_simulation(
    circuit: Circuit,
    seed: u64,
    config: KernelConfig,
    links: LinkGates,
    e: GateError,
) -> bool {
    let n = circuit.qubit_count() as usize;
    exists|i: int, mid: SvState, calls: CallTally, after: SvState|
        0 <= i < circuit.instructions@.len() && #[trigger] simulates_to(
            circuit.instructions@,
            i,
            n,
            config,
            links,
            shot_start(ground_amps(n), seed),
            mid,
            calls,
        ) && #[trigger] steps_to(
            circuit.instructions@[i],
            n,
            config,
            links,
            false,
            mid,
            after,
            Err::<CallTally, GateError>(e),
        )
}

proof fn lemma_few_calls(
    inst: Instruction,
    n: usize,
    config: KernelConfig,
    links: LinkGates,
    before: SvState,
    after: SvState,
    result: Result<CallTally, GateError>,
)
    requires
        steps_to(inst, n, config, links, false, before, after, result),
    ensures
        result matches Ok(calls) ==> calls.one_qubit <= 1 && calls.n_qubit <= 1 && calls.measure
            <= 1,
    decreases inst,
{
    match inst {
        Instruction::Conditional { condition, op } => {
            if crate::statevector::condition_holds(before.cbits, condition) {
                lemma_few_calls(*op, n, config, links, before, after, result);
            }
        },
        _ => {},
    }
}

/// A state-vector simulator.
pub struct StatevectorSimulator {
    pub seed: Option<u64>,
    /// Whether the calls of a single simulation are reported.
    pub profile: bool,
}

impl StatevectorSimulator {
    /// A simulator that starts from a seed; without one a seed is drawn for each call.
    pub fn new(seed: Option<u64>, profile: bool) -> (r: StatevectorSimulator)
        ensures
            r.seed == seed,
            r.profile == profile,
    {
        StatevectorSimulator { seed, profile }
    }

    /// The seed to start from, where `drawn` is the one to take if none was given.
    pub open spec fn seed_or(&self, drawn: u64) -> u64 {
        match self.seed {
            Some(seed) => seed,
            None => drawn,
        }
    }

    /// Runs a circuit once from the ground state. `drawn` is the seed to start from if none was
    /// given.
    pub fn simulate(
        &self,
        circuit: &Circuit,
        drawn: u64,
        config: KernelConfig,
        links: &LinkGates,
    ) -> (r: Result<SimulationResult, GateError>)
        requires
            is_simulable(*circuit),
            links.wf(),
        ensures
            match r {
                Ok(result) => is_simulation(
                    *circuit,
                    self.seed_or(drawn),
                    config,
                    *links,
                    result,
                ) && (!self.profile ==> result.times == (CallTimes {
                    one_qubit: 0,
                    n_qubit: 0,
                    measure: 0,
                })),
                Err(e) => is_failed_simulation(
                    *circuit,
                    self.seed_or(drawn),
                    config,
                    *links,
                    e,
                ),
            },
    {
        broadcast use vstd::std_specs::hash::group_hash_axioms;

        let n: usize = circuit.num_qubits();
        let seed: u64 = match self.seed {
            Some(seed) => seed,
            None => drawn,
        };
        let mut state: Vec<Complex64> = ground_state(n);
        let mut cbits: HashMap<usize, i32> = HashMap::new();
        let mut rng: ChaCha8Rng = seed_rng(seed);
        let ghost start = shot_start(ground_amps(n), self.seed_or(drawn));
        assert(cbits@ =~= Map::<usize, i32>::empty());
        let mut calls: CallTally = CallTally { one_qubit: 0, n_qubit: 0, measure: 0 };
        let mut times: CallTimes = CallTimes::none();
        let mut i: usize = 0;
        while i < circuit.instructions.len()
            invariant
                i <= circuit.instructions@.len(),
                is_simulable(*circuit),
                reaches(circuit.instructions@, i as int),
                links.wf(),
                n == circuit.qubit_count(),
                start == shot_start(ground_amps(n), self.seed_or(drawn)),
                state@.len() == dimension(n),
                !self.profile ==> times == (CallTimes { one_qubit: 0, n_qubit: 0, measure: 0 }),
                calls.one_qubit <= i,
                calls.n_qubit <= i,
                calls.measure <= i,
                simulates_to(
                    circuit.instructions@,
                    i as int,
                    n,
                    config,
                    *links,
                    start,
                    (SvState { amps: state@, cbits: cbits@, rng }),
                    calls,
                ),
            decreases circuit.instructions@.len() - i,
        {
            let ghost mid = SvState { amps: state@, cbits: cbits@, rng };
            assert(is_runnable_on(circuit.instructions@[i as int], n as int));
            let begun: Option<Instant> = if self.profile {
                Some(Instant::now())
            } else {
                None
            };
            let step: Result<CallTally, GateError> = run_instruction(
                state.as_mut_slice(),
                &circuit.instructions[i],
                n,
                &mut cbits,
                &mut rng,
                config,
                links,
            );
            let ghost after = SvState { amps: state@, cbits: cbits@, rng };
            match step {
                Ok(last) => {
                    match begun {
                        Some(moment) => {
                            times.add(last, &moment);
                        },
                        None => {},
                    }
                    proof {
                        lemma_few_calls(
                            circuit.instructions@[i as int],
                            n,
                            config,
                            *links,
                            mid,
                            after,
                            Ok::<CallTally, GateError>(last),
                        );
                    }
                    let ghost earlier = calls;
                    calls = CallTally {
                        one_qubit: calls.one_qubit + last.one_qubit,
                        n_qubit: calls.n_qubit + last.n_qubit,
                        measure: calls.measure + last.measure,
                    };
                    proof {
                        assert(calls == added(earlier, last));
                        assert(steps_to(
                            circuit.instructions@[i + 1 - 1],
                            n,
                            config,
                            *links,
                            false,
                            mid,
                            after,
                            Ok::<CallTally, GateError>(last),
                        ));
                        assert(simulates_to(
                            circuit.instructions@,
                            i + 1 - 1,
                            n,
                            config,
                            *links,
                            start,
                            mid,
                            earlier,
                        ));
                    }
                },
                Err(e) => {
                    assert(simulates_to(
                        circuit.instructions@,
                        i as int,
                        n,
                        config,
                        *links,
                        start,
                        mid,
                        calls,
                    ));
                    assert(steps_to(
                        circuit.instructions@[i as int],
                        n,
                        config,
                        *links,
                        false,
                        mid,
                        after,
                        Err::<CallTally, GateError>(e),
                    ));
                    assert(n == circuit.qubit_count() as usize);
                    return Err(e);
                },
            }
            i = i + 1;
        }
        let ghost end = SvState { amps: state@, cbits: cbits@, rng };
        let result: SimulationResult = SimulationResult {
            sv: state,
            num_qubits: n,
            cbits,
            calls,
            times,
        };
        assert(end.cbits == result.cbits@);
        assert(end.amps == result.sv@);
        assert(simulates_to(
            circuit.instructions@,
            circuit.instructions@.len() as int,
            circuit.qubit_count() as usize,
            config,
            *links,
            shot_start(ground_amps(circuit.qubit_count() as usize), self.seed_or(drawn)),
            end,
            result.calls,
        ));
        Ok(result)
    }

    /// Runs a circuit `shots` times independently and counts the classical outcomes, with the
    /// optimisations that the settings ask for. `drawn` is the seed to start from if none was
    /// given.
    pub fn simulate_shots(
        &self,
        circuit: &Circuit,
        shots: usize,
        drawn: u64,
        settings: ShotSettings,
        links: &LinkGates,
    ) -> (r: Result<ShotsReport, SimulationError>)
        requires
            is_shot_simulable(*circuit, settings.truncation),
            links.wf(),
        ensures
            ({
                let seed = self.seed_or(drawn);
                let n = circuit.qubit_count() as usize;
                let keep = kept_qubits(*circuit);
                let reduces = reduces(*circuit, settings.truncation);
                match r {
                    Ok(report) => {
                        &&& report.counts.wf()
                        &&& report.counts.total() == shots
                        &&& report.original_num_qubits == n
                        &&& !reduces ==> {
                            &&& report.removed_qubits is None
                            &&& report.effective_num_qubits == n
                            &&& is_report_of(
                                circuit.instructions@,
                                n,
                                circuit.cbit_count(),
                                shots as nat,
                                seed,
                                settings,
                                *links,
                                report,
                            )
                        }
                        &&& reduces ==> {
                            &&& report.removed_qubits is Some
                            &&& report.removed_qubits->0@ == removed_below(
                                keep,
                                keep.len() as int,
                            )
                            &&& exists|reduced: Circuit| #[trigger]
                                is_reduced_circuit(reduced, *circuit)
                                    && report.effective_num_qubits == reduced.qubit_count()
                                    && is_report_of(
                                    reduced.instructions@,
                                    reduced.qubit_count() as usize,
                                    circuit.cbit_count(),
                                    shots as nat,
                                    seed,
                                    settings,
                                    *links,
                                    report,
                                )
                        }
                    },
                    Err(SimulationError::Truncation(e)) => reduces && exists|i: int| #[trigger]
                        fails_first(circuit.instructions@, numbering(keep), i, e),
                    Err(SimulationError::Gate(e)) => {
                        &&& !reduces ==> is_failure_of(
                            circuit.instructions@,
                            n,
                            shots as nat,
                            seed,
                            settings,
                            *links,
                            e,
                        )
                        &&& reduces ==> exists|reduced: Circuit| #[trigger]
                            is_reduced_circuit(reduced, *circuit) && is_failure_of(
                                reduced.instructions@,
                                reduced.qubit_count() as usize,
                                shots as nat,
                                seed,
                                settings,
                                *links,
                                e,
                            )
                    },
                }
            }),
    {
        let seed: u64 = match self.seed {
            Some(seed) => seed,
            None => drawn,
        };
        let n: usize = circuit.num_qubits();
        let num_cbits: usize = circuit.num_cbits();
        if settings.truncation {
            match build_count_qubit_truncation(circuit) {
                Err(e) => {
                    return Err(SimulationError::Truncation(e));
                },
                Ok(Some(t)) => {
                    proof {
                        crate::truncation::lemma_needed_shape(
                            circuit.instructions@,
                            0,
                            circuit.qubit_count(),
                            circuit.cbit_count(),
                        );
                        let keep = kept_qubits(*circuit);
                        lemma_reduced_runnable(
                            circuit.instructions@,
                            keep,
                            t.circuit.instructions@,
                            n as int,
                            kept_below(keep, keep.len() as int) as int,
                        );
                        crate::truncation::lemma_kept_below_bounds(keep, 0, keep.len() as int);
                        assert(is_reduced_circuit(t.circuit, *circuit));
                    }
                    let effective: usize = t.circuit.num_qubits();
                    let ghost reduced = t.circuit;
                    match run_circuit_shots(
                        &t.circuit.instructions,
                        effective,
                        num_cbits,
                        shots,
                        seed,
                        settings,
                        links,
                        n,
                        Some(t.removed_qubits),
                    ) {
                        Ok(report) => {
                            assert(is_reduced_circuit(reduced, *circuit));
                            return Ok(report);
                        },
                        Err(e) => {
                            assert(is_reduced_circuit(reduced, *circuit));
                            return Err(SimulationError::Gate(e));
                        },
                    }
                },
                Ok(None) => {},
            }
        }
        match run_circuit_shots(
            &circuit.instructions,
            n,
            num_cbits,
            shots,
            seed,
            settings,
            links,
            n,
            None,
        ) {
            Ok(report) => Ok(report),
            Err(e) => Err(SimulationError::Gate(e)),
        }
    }
}

/// Whether `reduced` is what is left of a circuit without the qubits that cannot influence the
/// counts.
pub open spec fn is_reduced_circuit(reduced: Circuit, circuit: Circuit) -> bool {
    exists|t: QubitTruncation| #[trigger] is_truncation(t, circuit) && t.circuit == reduced
}

} // verus!
