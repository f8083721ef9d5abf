//! What holds of conditions, of runs in parts, and of measurements that are put off.

use vstd::prelude::*;

use crate::bits::{bit_set, dimension, lemma_dimension_step};
use crate::circuit::cbit_value;
use crate::config::KernelConfig;
use crate::fusion::FusedInstruction;
use crate::gate_error::GateError;
use crate::gates::LinkGates;
use crate::instruction::{Condition, Instruction};
use crate::mps_run::{mps_steps_to, MpsPoint};
use crate::mps_shots::trailing;
use crate::run_laws::{are_bits, law_condition_reads_its_bits};
use crate::stabilizer_shots::{clifford_run, CliffordShot};
use crate::statevector::{condition_holds, register_value, steps_to, CallTally, SvState};
use crate::statevector_shots::{fused_steps_to, runs_to};
use crate::terminal::{
    basis_values, deferred, is_layout, key_char, measures_qubit, sample_values, terminal_key,
    touches_measured, TerminalMeasurement, TerminalSamplingLayout,
};
use crate::wide_gate::{gate_index, lemma_gate_index_below};

verus! {

proof fn lemma_bits_from_below(a: u64, b: u64, m: u64)
    by (bit_vector)
    requires
        m < 63,
        (a << ((63 - m) as u64)) == (b << ((63 - m) as u64)),
        (a & (1u64 << ((m + 1) as u64)) != 0) == (b & (1u64 << ((m + 1) as u64)) != 0),
    ensures
        (a << ((62 - m) as u64)) == (b << ((62 - m) as u64)),
{
}

proof fn lemma_bits_at_the_ends(a: u64, b: u64)
    by (bit_vector)
    ensures
        (a & (1u64 << 0u64) != 0) == (b & (1u64 << 0u64) != 0) ==> (a << 63u64) == (b << 63u64),
        (a << 0u64) == (b << 0u64) ==> a == b,
{
}

proof fn lemma_low_bits_agree(a: u64, b: u64, m: u64)
    requires
        m < 64,
        forall|j: u64|
            j < 64 ==> (#[trigger] (a & (1u64 << j)) != 0) == (b & (1u64 << j) != 0),
    ensures
        (a << ((63 - m) as u64)) == (b << ((63 - m) as u64)),
    decreases m,
{
    lemma_bits_at_the_ends(a, b);
    if m == 0 {
        assert((a & (1u64 << 0u64) != 0) == (b & (1u64 << 0u64) != 0));
    } else {
        lemma_low_bits_agree(a, b, (m - 1) as u64);
        assert((a & (1u64 << m) != 0) == (b & (1u64 << m) != 0));
        lemma_bits_from_below(a, b, (m - 1) as u64);
    }
}

/// Whether a number has its bit at `j` set.
pub open spec fn has_bit(value: u64, j: int) -> bool {
    value & (1u64 << (j as u64)) != 0
}

/// A condition holds exactly where each bit of the value that it asks for is the classical bit at
/// that place of its register, and no bit is asked for beyond the register.
pub proof fn law_conditions_compare_bit_by_bit(cbits: Map<usize, i32>, condition: Condition)
    requires
        are_bits(cbits),
        condition.creg_size <= 64,
    ensures
        condition_holds(cbits, condition) <==> forall|j: int|
            0 <= j < 64 ==> (#[trigger] has_bit(condition.creg_value, j) <==> j
                < condition.creg_size && cbit_value(cbits, (condition.creg_base + j) as usize)
                == 1),
{
    let value = register_value(cbits, condition, condition.creg_size as int);
    assert forall|j: int| 0 <= j < 64 implies (#[trigger] has_bit(value, j) <==> j
        < condition.creg_size && cbit_value(cbits, (condition.creg_base + j) as usize) == 1) by {
        law_condition_reads_its_bits(cbits, condition, j);
    }
    if forall|j: int|
        0 <= j < 64 ==> (#[trigger] has_bit(condition.creg_value, j) <==> j < condition.creg_size
            && cbit_value(cbits, (condition.creg_base + j) as usize) == 1) {
        let asked = condition.creg_value;
        assert forall|j: u64| j < 64 implies (#[trigger] (value & (1u64 << j)) != 0) == (asked & (
        1u64 << j) != 0) by {
            assert(has_bit(value, j as int) == has_bit(asked, j as int));
        }
        lemma_low_bits_agree(value, asked, 63);
        lemma_bits_at_the_ends(value, asked);
    }
}

/// An instruction with a condition does what the instruction does where the condition holds, and
/// nothing elsewhere, on a state vector and on a matrix product state.
pub proof fn law_conditions_guard_their_instruction(
    condition: Condition,
    op: Box<Instruction>,
    n: usize,
    config: KernelConfig,
    links: LinkGates,
    names: bool,
    before: SvState,
    after: SvState,
    result: Result<CallTally, GateError>,
    ahead: Seq<Instruction>,
    from: MpsPoint,
    to: MpsPoint,
    res: Result<(), GateError>,
)
    requires
        are_bits(before.cbits),
        are_bits(from.cbits),
        condition.creg_size <= 64,
        steps_to(
            Instruction::Conditional { condition, op },
            n,
            config,
            links,
            names,
            before,
            after,
            result,
        ),
        mps_steps_to(Instruction::Conditional { condition, op }, ahead, links, from, to, res),
    ensures
        if forall|j: int|
            0 <= j < 64 ==> (#[trigger] has_bit(condition.creg_value, j) <==> j
                < condition.creg_size && cbit_value(
                before.cbits,
                (condition.creg_base + j) as usize,
            ) == 1) {
            steps_to(*op, n, config, links, names, before, after, result)
        } else {
            after == before && result is Ok
        },
        if forall|j: int|
            0 <= j < 64 ==> (#[trigger] has_bit(condition.creg_value, j) <==> j
                < condition.creg_size && cbit_value(from.cbits, (condition.creg_base + j) as usize)
                == 1) {
            mps_steps_to(*op, Seq::empty(), links, from, to, res)
        } else {
            to == from && res is Ok
        },
{
    law_conditions_compare_bit_by_bit(before.cbits, condition);
    law_conditions_compare_bit_by_bit(from.cbits, condition);
}

/// Running two lists of fused instructions after each other is running them as one list: the
/// first list is run first.
pub proof fn law_runs_continue(
    first: Seq<FusedInstruction<'_>>,
    second: Seq<FusedInstruction<'_>>,
    n: usize,
    config: KernelConfig,
    links: LinkGates,
    before: SvState,
    mid: SvState,
    after: SvState,
)
    requires
        runs_to(first, n, config, links, before, mid),
        runs_to(second, n, config, links, mid, after),
    ensures
        runs_to(first + second, n, config, links, before, after),
    decreases second.len(),
{
    if second.len() == 0 {
        assert(first + second =~= first);
    } else {
        let whole = first + second;
        let late = choose|late: SvState| #[trigger]
            fused_steps_to(
                second.last(),
                n,
                config,
                links,
                late,
                after,
                Ok::<(), GateError>(()),
            ) && runs_to(second.drop_last(), n, config, links, mid, late);
        law_runs_continue(first, second.drop_last(), n, config, links, before, mid, late);
        assert(whole.drop_last() =~= first + second.drop_last());
        assert(whole.last() == second.last());
    }
}

/// The same of shots of Clifford circuits.
pub proof fn law_clifford_runs_continue(
    first: Seq<Instruction>,
    second: Seq<Instruction>,
    n: int,
    shot: CliffordShot,
    count: int,
)
    requires
        0 <= count <= second.len(),
    ensures
        clifford_run(first + second, n, shot, first.len() + count) == clifford_run(
            second,
            n,
            clifford_run(first, n, shot, first.len() as int),
            count,
        ),
    decreases count,
{
    if count == 0 {
        lemma_clifford_prefix(first, second, n, shot, first.len() as int);
    } else {
        law_clifford_runs_continue(first, second, n, shot, count - 1);
        assert((first + second)[first.len() + count - 1] == second[count - 1]);
    }
}

proof fn lemma_clifford_prefix(
    first: Seq<Instruction>,
    second: Seq<Instruction>,
    n: int,
    shot: CliffordShot,
    count: int,
)
    requires
        0 <= count <= first.len(),
    ensures
        clifford_run(first + second, n, shot, count) == clifford_run(first, n, shot, count),
    decreases count,
{
    if count > 0 {
        lemma_clifford_prefix(first, second, n, shot, count - 1);
        assert((first + second)[count - 1] == first[count - 1]);
    }
}

proof fn lemma_deferred_before(fused: Seq<FusedInstruction<'_>>, i: int, count: int)
    requires
        0 <= i <= count,
        deferred(fused, count) is Some,
    ensures
        deferred(fused, i) is Some,
        forall|q: usize|
            measures_qubit(deferred(fused, i)->0, q) ==> #[trigger] measures_qubit(
                deferred(fused, count)->0,
                q,
            ),
    decreases count - i,
{
    if i < count {
        lemma_deferred_before(fused, i, count - 1);
        let before = deferred(fused, count - 1)->0;
        let now = deferred(fused, count)->0;
        assert forall|q: usize| measures_qubit(
            deferred(fused, i)->0,
            q,
        ) implies #[trigger] measures_qubit(now, q) by {
            assert(measures_qubit(before, q));
            let k = choose|k: int| 0 <= k < before.len() && (#[trigger] before[k]).qubit == q;
            assert(now[k].qubit == q);
        }
    }
}

/// Where measurements are put off, nothing after a measurement acts on its qubit but other
/// measurements, nothing is reset, and nothing depends on what was measured.
pub proof fn law_nothing_follows_a_deferred_measurement(
    fused: Seq<FusedInstruction<'_>>,
    count: int,
    i: int,
    j: int,
    qubit: usize,
    cbit: usize,
)
    requires
        deferred(fused, count) is Some,
        0 <= i < j < count,
        fused[i] matches FusedInstruction::Original(inst) && *inst == (Instruction::Measure {
            qubit,
            cbit,
        }),
    ensures
        match fused[j] {
            FusedInstruction::Fused1Q { qubit: on, .. } => on != qubit,
            FusedInstruction::Original(inst) => {
                &&& !(*inst is Reset)
                &&& !(*inst is Conditional)
                &&& *inst is Measure || *inst is Barrier || *inst is Classical
                    || !inst.touched().contains(qubit)
            },
        },
{
    lemma_deferred_before(fused, j, count);
    lemma_deferred_before(fused, j + 1, count);
    lemma_deferred_before(fused, i + 1, j);
    let first = deferred(fused, i + 1)->0;
    assert(first[first.len() - 1].qubit == qubit);
    assert(measures_qubit(first, qubit));
    let known = deferred(fused, j)->0;
    assert(measures_qubit(known, qubit));
    match fused[j] {
        FusedInstruction::Original(inst) => {
            if inst.touched().contains(qubit) {
                let k = choose|k: int|
                    0 <= k < inst.touched().len() && inst.touched()[k] == qubit;
                assert(measures_qubit(known, inst.touched()[k]));
                assert(touches_measured(inst.touched(), known));
            }
        },
        _ => {},
    }
}

/// The measurements that are put off are those of the circuit: each one is listed with its qubit
/// and its classical bit, after those before it.
pub proof fn law_deferred_measurements_are_listed(
    fused: Seq<FusedInstruction<'_>>,
    count: int,
    qubit: usize,
    cbit: usize,
)
    requires
        0 < count,
        deferred(fused, count) is Some,
    ensures
        deferred(fused, count - 1) is Some,
        (fused[count - 1] matches FusedInstruction::Original(inst) && *inst == (
        Instruction::Measure { qubit, cbit })) ==> deferred(fused, count)->0 == deferred(
            fused,
            count - 1,
        )->0.push(TerminalMeasurement { qubit, cbit }),
        !(fused[count - 1] matches FusedInstruction::Original(inst) && *inst is Measure)
            ==> deferred(fused, count)->0 == deferred(fused, count - 1)->0,
{
}

/// Where the measurements of a matrix product state are sampled at the end, only measurements,
/// barriers and classical statements follow a measurement.
pub proof fn law_nothing_follows_a_trailing_measurement(
    instructions: Seq<Instruction>,
    count: int,
    i: int,
    j: int,
)
    requires
        trailing(instructions, count) is Some,
        0 <= i < j < count,
        instructions[i] is Measure,
    ensures
        instructions[j] is Measure || instructions[j] is Barrier || instructions[j] is Classical,
        trailing(instructions, j) is Some,
        trailing(instructions, j)->0.len() > 0,
    decreases count,
{
    if j < count - 1 {
        law_nothing_follows_a_trailing_measurement(instructions, count - 1, i, j);
    } else if i < j - 1 {
        law_nothing_follows_a_trailing_measurement(instructions, count - 1, i, j - 1);
    } else {
        assert(trailing(instructions, j) is Some);
        assert(instructions[j - 1] is Measure);
    }
}

proof fn lemma_low_bit(x: usize, set: bool, p: usize)
    by (bit_vector)
    requires
        x < 1usize << ((usize::BITS - 1) as usize),
        p + 1 < usize::BITS,
    ensures
        set ==> ((2 * x + 1) as usize) & (1usize << 0usize) != 0,
        !set ==> ((2 * x) as usize) & (1usize << 0usize) == 0,
        ((((2 * x + 1) as usize) & (1usize << ((p + 1) as usize))) != 0) == (x & (1usize << p)
            != 0),
        ((((2 * x) as usize) & (1usize << ((p + 1) as usize))) != 0) == (x & (1usize << p) != 0),
{
}

/// The bits of the index of some qubits are their values, the first qubit being the highest bit.
pub proof fn law_index_bits_are_values(basis: usize, qubits: Seq<usize>, m: int)
    requires
        qubits.len() < usize::BITS,
        0 <= m < qubits.len(),
    ensures
        bit_set(gate_index(basis, qubits) as usize, (qubits.len() - 1 - m) as usize) == bit_set(
            basis,
            qubits[m],
        ),
    decreases qubits.len(),
{
    let rest = qubits.drop_last();
    lemma_gate_index_below(basis, rest);
    lemma_gate_index_below(basis, qubits);
    let x = gate_index(basis, rest) as usize;
    let k = (qubits.len() - 1) as usize;
    lemma_dimension_grows(k, (usize::BITS - 1) as usize);
    let set = bit_set(basis, qubits.last());
    lemma_low_bit(x, set, 0);
    if m < rest.len() {
        law_index_bits_are_values(basis, rest, m);
        let p = (rest.len() - 1 - m) as usize;
        lemma_low_bit(x, set, p);
        assert(rest[m] == qubits[m]);
    }
}

proof fn lemma_dimension_grows(a: usize, b: usize)
    requires
        a <= b < usize::BITS,
    ensures
        dimension(a) <= dimension(b),
    decreases b - a,
{
    if a < b {
        lemma_dimension_grows(a, (b - 1) as usize);
        lemma_dimension_step((b - 1) as usize);
    }
}

/// A basis state has the same key whether it is sampled as a whole or by the qubits that are
/// measured.
pub proof fn law_both_samplings_have_the_same_keys(
    basis: usize,
    measurements: Seq<TerminalMeasurement>,
    layout: TerminalSamplingLayout,
    num_cbits: nat,
)
    requires
        is_layout(layout, measurements),
        layout.sampled_qubits@.len() < usize::BITS,
    ensures
        terminal_key(
            sample_values(
                gate_index(basis, layout.sampled_qubits@) as usize,
                layout.sampled_qubits@.len() as int,
                layout.measurement_indices@,
            ),
            measurements,
            num_cbits,
        ) == terminal_key(basis_values(basis, measurements), measurements, num_cbits),
{
    let by_sample = sample_values(
        gate_index(basis, layout.sampled_qubits@) as usize,
        layout.sampled_qubits@.len() as int,
        layout.measurement_indices@,
    );
    let by_basis = basis_values(basis, measurements);
    assert forall|i: int| 0 <= i < measurements.len() implies #[trigger] by_sample(i) == by_basis(
        i,
    ) by {
        let place = layout.measurement_indices@[i] as int;
        assert(layout.sampled_qubits@[place] == measurements[i].qubit);
        law_index_bits_are_values(basis, layout.sampled_qubits@, place);
    }
    let (a, b) = (
        terminal_key(by_sample, measurements, num_cbits),
        terminal_key(by_basis, measurements, num_cbits),
    );
    assert forall|j: int| 0 <= j < num_cbits implies a[j] == b[j] by {
        lemma_same_char(
            by_sample,
            by_basis,
            measurements,
            measurements.len() as int,
            num_cbits as int,
            j,
        );
    }
    assert(a =~= b);
}

proof fn lemma_same_char(
    a: spec_fn(int) -> bool,
    b: spec_fn(int) -> bool,
    measurements: Seq<TerminalMeasurement>,
    count: int,
    num_cbits: int,
    j: int,
)
    requires
        count <= measurements.len(),
        forall|i: int| 0 <= i < measurements.len() ==> #[trigger] a(i) == b(i),
    ensures
        key_char(a, measurements, count, num_cbits, j) == key_char(
            b,
            measurements,
            count,
            num_cbits,
            j,
        ),
    decreases count,
{
    if count > 0 {
        lemma_same_char(a, b, measurements, count - 1, num_cbits, j);
        assert(a(count - 1) == b(count - 1));
    }
}

} // verus!
