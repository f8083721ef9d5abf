//! Shots of Clifford circuits.

use std::collections::HashMap;
use std::time::Instant;

use rand_chacha::ChaCha8Rng;
use vstd::prelude::*;

use crate::circuit::{cbits_text, format_cbits, Circuit};
use crate::clock::add_time;
use crate::counts::{tally, Counts};
use crate::instruction::{same_instruction, Instruction};
use crate::random::{seed_rng, seeded};
use crate::stabilizer::{
    cnot_row, ground_rows, h_row, measured, s_row, Row, StabilizerState, MAX_STABILIZER_QUBITS,
};
use crate::wide_gate::qubits_fit;

verus! {

/// An instruction that is no Clifford operation of this simulator.
#[derive(Debug)]
pub struct UnsupportedInstruction {
    pub instruction: Instruction,
}

/// Where a shot stands: the rows of the tableau, the classical bits, the generator and the
/// number of measurements made.
pub struct CliffordShot {
    pub rows: Seq<Row>,
    pub cbits: Map<usize, i32>,
    pub rng: ChaCha8Rng,
    pub measurements: nat,
}

/// All rows after a Hadamard gate.
pub open spec fn h_rows(rows: Seq<Row>, n: int, q: usize) -> Seq<Row> {
    rows.map_values(|row: Row| h_row(row, n, q as int))
}

/// All rows after a phase gate.
pub open spec fn s_rows(rows: Seq<Row>, n: int, q: usize) -> Seq<Row> {
    rows.map_values(|row: Row| s_row(row, n, q as int))
}

/// All rows after two phase gates, which make a Z gate.
pub open spec fn z_rows(rows: Seq<Row>, n: int, q: usize) -> Seq<Row> {
    s_rows(s_rows(rows, n, q), n, q)
}

/// All rows after an X gate, made of a Z gate between Hadamard gates.
pub open spec fn x_rows(rows: Seq<Row>, n: int, q: usize) -> Seq<Row> {
    h_rows(z_rows(h_rows(rows, n, q), n, q), n, q)
}

/// Whether the simulator knows an instruction.
pub open spec fn is_clifford(inst: Instruction) -> bool {
    match inst {
        Instruction::H { .. }
        | Instruction::S { .. }
        | Instruction::Sdg { .. }
        | Instruction::X { .. }
        | Instruction::Y { .. }
        | Instruction::Z { .. }
        | Instruction::Cx { .. }
        | Instruction::Measure { .. }
        | Instruction::Reset { .. }
        | Instruction::Barrier
        | Instruction::Id { .. } => true,
        _ => false,
    }
}

/// Whether the simulator knows an instruction.
pub fn knows_instruction(inst: &Instruction) -> (r: bool)
    ensures
        r == is_clifford(*inst),
{
    match inst {
        Instruction::H { .. }
        | Instruction::S { .. }
        | Instruction::Sdg { .. }
        | Instruction::X { .. }
        | Instruction::Y { .. }
        | Instruction::Z { .. }
        | Instruction::Cx { .. }
        | Instruction::Measure { .. }
        | Instruction::Reset { .. }
        | Instruction::Barrier
        | Instruction::Id { .. } => true,
        _ => false,
    }
}

/// The shot after the rows of the tableau have changed.
pub open spec fn with_rows(shot: CliffordShot, rows: Seq<Row>) -> CliffordShot {
    CliffordShot { rows, ..shot }
}

/// The shot after one instruction that the simulator knows.
pub open spec fn clifford_step(inst: Instruction, n: int, shot: CliffordShot) -> CliffordShot {
    match inst {
        Instruction::H { qubit } => with_rows(shot, h_rows(shot.rows, n, qubit)),
        Instruction::S { qubit } => with_rows(shot, s_rows(shot.rows, n, qubit)),
        Instruction::Sdg { qubit } => with_rows(
            shot,
            s_rows(s_rows(s_rows(shot.rows, n, qubit), n, qubit), n, qubit),
        ),
        Instruction::X { qubit } => with_rows(shot, x_rows(shot.rows, n, qubit)),
        Instruction::Y { qubit } => with_rows(
            shot,
            z_rows(x_rows(shot.rows, n, qubit), n, qubit),
        ),
        Instruction::Z { qubit } => with_rows(shot, z_rows(shot.rows, n, qubit)),
        Instruction::Cx { control, target } => with_rows(
            shot,
            shot.rows.map_values(
                |row: Row| cnot_row(row, n, control as int, target as int),
            ),
        ),
        Instruction::Measure { qubit, cbit } => {
            let (one, rows, rng) = measured(shot.rows, n, qubit as int, shot.rng);
            CliffordShot {
                rows,
                cbits: shot.cbits.insert(
                    cbit,
                    if one {
                        1i32
                    } else {
                        0i32
                    },
                ),
                rng,
                measurements: shot.measurements + 1,
            }
        },
        Instruction::Reset { qubit } => {
            let (one, rows, rng) = measured(shot.rows, n, qubit as int, shot.rng);
            CliffordShot {
                rows: if one {
                    x_rows(rows, n, qubit)
                } else {
                    rows
                },
                cbits: shot.cbits,
                rng,
                measurements: shot.measurements + 1,
            }
        },
        _ => shot,
    }
}

/// The shot after the first `count` instructions.
pub open spec fn clifford_run(
    instructions: Seq<Instruction>,
    n: int,
    shot: CliffordShot,
    count: int,
) -> CliffordShot
    decreases count,
{
    if count <= 0 {
        shot
    } else {
        clifford_step(instructions[count - 1], n, clifford_run(instructions, n, shot, count - 1))
    }
}

/// Whether the simulator knows the first `count` instructions.
pub open spec fn all_clifford(instructions: Seq<Instruction>, count: int) -> bool {
    forall|i: int| 0 <= i < count ==> is_clifford(#[trigger] instructions[i])
}

/// Whether an instruction that the simulator knows can be run on `n` qubits: it acts on no
/// others. The identity acts on none.
pub open spec fn acts_within(inst: Instruction, n: int) -> bool {
    is_clifford(inst) && !(inst is Id) ==> qubits_fit(inst.touched(), n)
}

/// Whether every instruction up to the first one that the simulator does not know can be run on
/// `n` qubits.
pub open spec fn touches_only(instructions: Seq<Instruction>, n: int) -> bool {
    forall|i: int|
        0 <= i < instructions.len() && all_clifford(instructions, i) ==> acts_within(
            #[trigger] instructions[i],
            n,
        )
}

fn apply_z(sim: &mut StabilizerState, qubit: usize)
    requires
        old(sim).wf(),
        qubit < old(sim).num_qubits,
    ensures
        final(sim).wf(),
        final(sim).num_qubits == old(sim).num_qubits,
        final(sim).rows() == z_rows(old(sim).rows(), old(sim).num_qubits as int, qubit),
{
    sim.apply_s(qubit);
    sim.apply_s(qubit);
}

fn apply_x(sim: &mut StabilizerState, qubit: usize)
    requires
        old(sim).wf(),
        qubit < old(sim).num_qubits,
    ensures
        final(sim).wf(),
        final(sim).num_qubits == old(sim).num_qubits,
        final(sim).rows() == x_rows(old(sim).rows(), old(sim).num_qubits as int, qubit),
{
    sim.apply_h(qubit);
    apply_z(sim, qubit);
    sim.apply_h(qubit);
}

/// The number of measurements to report: all that were made if they are tracked, and none
/// otherwise.
pub open spec fn reported(measurements: nat, track_measure: bool) -> nat {
    if track_measure {
        measurements
    } else {
        0
    }
}

/// Measures a qubit. The time that this takes is added to `nanos`, if it is tracked.
fn measure_timed(
    sim: &mut StabilizerState,
    qubit: usize,
    rng: &mut ChaCha8Rng,
    track_measure: bool,
    nanos: &mut u64,
) -> (outcome: u8)
    requires
        old(sim).wf(),
        qubit < old(sim).num_qubits,
    ensures
        final(sim).wf(),
        final(sim).num_qubits == old(sim).num_qubits,
        ({
            let (one, rows, after) = measured(
                old(sim).rows(),
                old(sim).num_qubits as int,
                qubit as int,
                *old(rng),
            );
            &&& outcome == if one {
                1u8
            } else {
                0u8
            }
            &&& final(sim).rows() == rows
            &&& *final(rng) == after
        }),
        *final(nanos) >= *old(nanos),
        !track_measure ==> *final(nanos) == *old(nanos),
{
    if track_measure {
        let start: Instant = Instant::now();
        let outcome: u8 = sim.measure_qubit(qubit, rng);
        add_time(nanos, &start);
        outcome
    } else {
        sim.measure_qubit(qubit, rng)
    }
}

/// Runs the instructions of one shot. Returns the number of measurements made and the
/// nanoseconds that they took, if they are tracked, or the first instruction that is not
/// supported; the instructions before it have been run.
pub fn run_shot_instructions(
    sim: &mut StabilizerState,
    instructions: &[Instruction],
    cbits: &mut HashMap<usize, i32>,
    rng: &mut ChaCha8Rng,
    track_measure: bool,
) -> (r: Result<(u64, u64), UnsupportedInstruction>)
    requires
        old(sim).wf(),
        touches_only(instructions@, old(sim).num_qubits as int),
    ensures
        final(sim).wf(),
        final(sim).num_qubits == old(sim).num_qubits,
        ({
            let start = CliffordShot {
                rows: old(sim).rows(),
                cbits: old(cbits)@,
                rng: *old(rng),
                measurements: 0,
            };
            let n = old(sim).num_qubits as int;
            exists|count: int|
                {
                    let end = #[trigger] clifford_run(instructions@, n, start, count);
                    &&& 0 <= count <= instructions@.len()
                    &&& all_clifford(instructions@, count)
                    &&& final(sim).rows() == end.rows
                    &&& final(cbits)@ == end.cbits
                    &&& *final(rng) == end.rng
                    &&& match r {
                        Ok((calls, nanos)) => count == instructions@.len() && calls == reported(
                            end.measurements,
                            track_measure,
                        ) && (!track_measure ==> nanos == 0),
                        Err(e) => count < instructions@.len() && !is_clifford(instructions@[count])
                            && same_instruction(e.instruction, instructions@[count]),
                    }
                }
        }),
{
    broadcast use vstd::std_specs::hash::group_hash_axioms;

    let ghost n = sim.num_qubits as int;
    let ghost start = CliffordShot {
        rows: sim.rows(),
        cbits: cbits@,
        rng: *rng,
        measurements: 0,
    };
    let mut measure_calls: u64 = 0;
    let mut measure_nanos: u64 = 0;
    let mut i: usize = 0;
    while i < instructions.len()
        invariant
            i <= instructions@.len(),
            sim.wf(),
            sim.num_qubits == n,
            n == old(sim).num_qubits,
            start == (CliffordShot {
                rows: old(sim).rows(),
                cbits: old(cbits)@,
                rng: *old(rng),
                measurements: 0,
            }),
            touches_only(instructions@, n),
            all_clifford(instructions@, i as int),
            measure_calls <= i,
            !track_measure ==> measure_nanos == 0,
            ({
                let now = clifford_run(instructions@, n, start, i as int);
                &&& sim.rows() == now.rows
                &&& cbits@ == now.cbits
                &&& *rng == now.rng
                &&& measure_calls == reported(now.measurements, track_measure)
            }),
        decreases instructions@.len() - i,
    {
        let inst: &Instruction = &instructions[i];
        proof {
            let now = clifford_run(instructions@, n, start, i as int);
            let next = clifford_run(instructions@, n, start, i + 1);
            assert(next == clifford_step(*inst, n, now));
            assert(acts_within(instructions@[i as int], n));
            if is_clifford(*inst) && !(*inst is Id) && inst.touched().len() > 0 {
                assert(inst.touched()[0] < n);
            }
            if is_clifford(*inst) && !(*inst is Id) && inst.touched().len() > 1 {
                assert(inst.touched()[1] < n);
            }
        }
        match inst {
            Instruction::H { qubit } => {
                sim.apply_h(*qubit);
            },
            Instruction::S { qubit } => {
                sim.apply_s(*qubit);
            },
            Instruction::Sdg { qubit } => {
                sim.apply_s(*qubit);
                sim.apply_s(*qubit);
                sim.apply_s(*qubit);
            },
            Instruction::X { qubit } => {
                apply_x(sim, *qubit);
            },
            Instruction::Y { qubit } => {
                apply_x(sim, *qubit);
                apply_z(sim, *qubit);
            },
            Instruction::Z { qubit } => {
                apply_z(sim, *qubit);
            },
            Instruction::Cx { control, target } => {
                sim.apply_cnot(*control, *target);
            },
            Instruction::Measure { qubit, cbit } => {
                let outcome: u8 = measure_timed(
                    sim,
                    *qubit,
                    rng,
                    track_measure,
                    &mut measure_nanos,
                );
                if track_measure {
                    measure_calls = measure_calls + 1;
                }
                cbits.insert(*cbit, outcome as i32);
            },
            Instruction::Reset { qubit } => {
                let outcome: u8 = measure_timed(
                    sim,
                    *qubit,
                    rng,
                    track_measure,
                    &mut measure_nanos,
                );
                if track_measure {
                    measure_calls = measure_calls + 1;
                }
                if outcome == 1 {
                    apply_x(sim, *qubit);
                }
            },
            Instruction::Barrier | Instruction::Id { .. } => {},
            _ => {
                return Err(UnsupportedInstruction { instruction: inst.clone() });
            },
        }
        i = i + 1;
    }
    Ok((measure_calls, measure_nanos))
}

/// The shot before its first instruction.
pub open spec fn fresh_shot(n: int, seed: u64) -> CliffordShot {
    CliffordShot {
        rows: ground_rows(n),
        cbits: Map::empty(),
        rng: seeded(seed),
        measurements: 0,
    }
}

/// The classical bits that a shot ends with, as a text.
pub open spec fn clifford_outcome(circuit: Circuit, seed: u64) -> Seq<char> {
    let n = circuit.qubit_count() as int;
    let instructions = circuit.instructions@;
    cbits_text(
        clifford_run(instructions, n, fresh_shot(n, seed), instructions.len() as int).cbits,
        circuit.cbit_count(),
    )
}

/// Whether a circuit can be simulated: its registers and qubits are numbers that fit, and the
/// instructions that are run act on its own qubits only.
pub open spec fn is_runnable(circuit: Circuit) -> bool {
    &&& circuit.wf()
    &&& circuit.qubit_count() <= MAX_STABILIZER_QUBITS
    &&& touches_only(circuit.instructions@, circuit.qubit_count() as int)
}

/// Whether `e` is the first instruction that is not supported.
pub open spec fn is_first_unsupported(
    instructions: Seq<Instruction>,
    e: UnsupportedInstruction,
) -> bool {
    exists|i: int|
        0 <= i < instructions.len() && #[trigger] all_clifford(instructions, i) && !is_clifford(
            instructions[i],
        ) && same_instruction(e.instruction, instructions[i])
}

/// The number of measurements that a shot makes.
pub open spec fn clifford_measurements(circuit: Circuit, seed: u64) -> nat {
    let n = circuit.qubit_count() as int;
    let instructions = circuit.instructions@;
    clifford_run(instructions, n, fresh_shot(n, seed), instructions.len() as int).measurements
}

/// The number of measurements that the first `shots` shots make.
pub open spec fn measurements_of_shots(circuit: Circuit, base_seed: u64, shots: nat) -> nat
    decreases shots,
{
    if shots == 0 {
        0
    } else {
        measurements_of_shots(circuit, base_seed, (shots - 1) as nat) + clifford_measurements(
            circuit,
            shot_seed(base_seed, shots - 1),
        )
    }
}

/// The outcomes of shots, and the number of measurements made and the nanoseconds that they
/// took, where they are tracked. These numbers stop at the largest one that fits.
pub struct StabilizerReport {
    pub counts: Counts,
    pub measure_calls: u64,
    pub measure_nanos: u64,
}

/// Whether `r` is what shots of a circuit come to.
pub open spec fn is_stabilizer_result(
    circuit: Circuit,
    shots: nat,
    base_seed: u64,
    profile: bool,
    r: Result<StabilizerReport, UnsupportedInstruction>,
) -> bool {
    match r {
        Ok(report) => {
            &&& shots > 0 ==> all_clifford(
                circuit.instructions@,
                circuit.instructions@.len() as int,
            )
            &&& report.counts.wf()
            &&& report.counts@ == tally(clifford_outcomes(circuit, base_seed, shots))
            &&& report.counts.total() == shots
            &&& report.measure_calls == at_most(
                reported(measurements_of_shots(circuit, base_seed, shots), profile),
            )
            &&& !profile ==> report.measure_nanos == 0
        },
        Err(e) => shots > 0 && is_first_unsupported(circuit.instructions@, e),
    }
}

/// The largest number that fits, where a number is larger.
pub open spec fn at_most(value: nat) -> u64 {
    if value <= u64::MAX {
        value as u64
    } else {
        u64::MAX
    }
}

/// A simulator of Clifford circuits.
pub struct StabilizerSimulator {
    pub seed: Option<u64>,
}

impl StabilizerSimulator {
    /// A simulator whose shots start from a seed; without one a seed is drawn for each call.
    pub fn new(seed: Option<u64>) -> (r: StabilizerSimulator)
        ensures
            r.seed == seed,
    {
        StabilizerSimulator { seed }
    }

    /// The seed to start from, where `drawn` is the one to take if none was given.
    pub fn base_seed(&self, drawn: u64) -> (r: u64)
        ensures
            r == match self.seed {
                Some(seed) => seed,
                None => drawn,
            },
    {
        match self.seed {
            Some(seed) => seed,
            None => drawn,
        }
    }

    /// Runs a circuit `shots` times independently and counts the classical outcomes. `drawn`
    /// is the seed to start from if none was given; `profile` tells whether measurements are
    /// tracked.
    pub fn simulate_shots(
        &self,
        circuit: &Circuit,
        shots: usize,
        profile: bool,
        drawn: u64,
    ) -> (r: Result<StabilizerReport, UnsupportedInstruction>)
        requires
            is_runnable(*circuit),
        ensures
            is_stabilizer_result(
                *circuit,
                shots as nat,
                (match self.seed {
                    Some(seed) => seed,
                    None => drawn,
                }),
                profile,
                r,
            ),
    {
        run_stabilizer_shots(circuit, shots, self.base_seed(drawn), profile)
    }
}

/// The seed of a shot: shot `i` starts from the base seed plus `i`, modulo 2 to the power of
/// 64.
pub open spec fn shot_seed(base_seed: u64, shot: int) -> u64 {
    ((base_seed + shot) % 0x1_0000_0000_0000_0000) as u64
}

/// The seed of a shot.
pub fn seed_of_shot(base_seed: u64, shot: usize) -> (r: u64)
    ensures
        r == shot_seed(base_seed, shot as int),
{
    base_seed.wrapping_add(shot as u64)
}

/// Runs one shot from a seed and returns the classical bits that it ends with, together with
/// the number of measurements made and the nanoseconds that they took, if they are tracked.
pub fn run_stabilizer_shot(circuit: &Circuit, seed: u64, track_measure: bool) -> (r: Result<
    (String, u64, u64),
    UnsupportedInstruction,
>)
    requires
        is_runnable(*circuit),
    ensures
        match r {
            Ok((text, calls, nanos)) => {
                let instructions = circuit.instructions@;
                &&& all_clifford(instructions, instructions.len() as int)
                &&& text@ == clifford_outcome(*circuit, seed)
                &&& calls == reported(clifford_measurements(*circuit, seed), track_measure)
                &&& !track_measure ==> nanos == 0
            },
            Err(e) => is_first_unsupported(circuit.instructions@, e),
        },
{
    broadcast use vstd::std_specs::hash::group_hash_axioms;

    let n: usize = circuit.num_qubits();
    let num_cbits: usize = circuit.num_cbits();
    let mut sim: StabilizerState = StabilizerState::new(n);
    let mut cbits: HashMap<usize, i32> = HashMap::new();
    let mut rng: ChaCha8Rng = seed_rng(seed);
    assert(cbits@ =~= Map::<usize, i32>::empty());
    match run_shot_instructions(
        &mut sim,
        circuit.instructions.as_slice(),
        &mut cbits,
        &mut rng,
        track_measure,
    ) {
        Ok((calls, nanos)) => {
            let text: String = format_cbits(&cbits, num_cbits);
            Ok((text, calls, nanos))
        },
        Err(e) => Err(e),
    }
}

/// The outcomes of the first `shots` shots.
pub open spec fn clifford_outcomes(circuit: Circuit, base_seed: u64, shots: nat) -> Seq<Seq<char>> {
    Seq::new(shots, |i: int| clifford_outcome(circuit, shot_seed(base_seed, i)))
}

/// Runs a circuit `shots` times independently and counts the classical outcomes, and the
/// measurements where they are tracked.
pub fn run_stabilizer_shots(circuit: &Circuit, shots: usize, base_seed: u64, profile: bool) -> (r:
    Result<StabilizerReport, UnsupportedInstruction>)
    requires
        is_runnable(*circuit),
    ensures
        is_stabilizer_result(*circuit, shots as nat, base_seed, profile, r),
{
    let mut counts: Counts = Counts::new();
    let mut measure_calls: u64 = 0;
    let mut measure_nanos: u64 = 0;
    let mut shot: usize = 0;
    assert(clifford_outcomes(*circuit, base_seed, 0) =~= Seq::<Seq<char>>::empty());
    while shot < shots
        invariant
            shot <= shots,
            is_runnable(*circuit),
            shot > 0 ==> all_clifford(circuit.instructions@, circuit.instructions@.len() as int),
            counts.wf(),
            counts@ == tally(clifford_outcomes(*circuit, base_seed, shot as nat)),
            counts.total() == shot,
            measure_calls == at_most(
                reported(measurements_of_shots(*circuit, base_seed, shot as nat), profile),
            ),
            !profile ==> measure_nanos == 0,
        decreases shots - shot,
    {
        match run_stabilizer_shot(circuit, seed_of_shot(base_seed, shot), profile) {
            Ok((text, calls, nanos)) => {
                counts.add(text, 1);
                measure_calls = measure_calls.saturating_add(calls);
                measure_nanos = measure_nanos.saturating_add(nanos);
                proof {
                    let now = clifford_outcomes(*circuit, base_seed, shot as nat);
                    let next = clifford_outcomes(*circuit, base_seed, (shot + 1) as nat);
                    assert(next.drop_last() =~= now);
                }
            },
            Err(e) => {
                return Err(e);
            },
        }
        shot = shot + 1;
    }
    Ok(StabilizerReport { counts, measure_calls, measure_nanos })
}

} // verus!
