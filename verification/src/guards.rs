//! Tests of what the simulators ask of a circuit.

use vstd::prelude::*;

use crate::circuit::{registers_fit, Circuit, Register};
use crate::fusion::gates_fit;
use crate::gate_error::{remote_gate, remote_gate_named, RemoteGate};
use crate::gate_matrix::{gate_matrix_1q, single_gate_qubit};
use crate::instruction::{Condition, Instruction};
use crate::mps_routing::mps_instruction_qubit_pair;
use crate::mps_run::is_mps_runnable;
use crate::mps_shots::all_mps_runnable;
use crate::stabilizer::MAX_STABILIZER_QUBITS;
use crate::stabilizer_shots::{
    acts_within, all_clifford, is_clifford, is_runnable, knows_instruction,
};
use crate::statevector::{condition_fits, ends_run, is_runnable_on, is_unsupported};
use crate::statevector_shots::{
    is_retained, is_shot_simulable, is_simulable, reaches, reduces, retained_reach,
};
use crate::text::{lower_text, same_text};
use crate::truncation::{
    count_relevant_qubits, is_first_outside, kept_below, kept_qubits, new_number, numbering,
    retention, touches_kept, touches_removed, TruncationError,
};
use crate::wide_gate::qubits_fit;

verus! {

/// Tests whether the ends of some registers are numbers that fit.
fn test_registers(regs: &Vec<Register>) -> (r: bool)
    ensures
        r == registers_fit(regs@),
{
    let mut i: usize = 0;
    while i < regs.len()
        invariant
            i <= regs@.len(),
            forall|j: int|
                0 <= j < i ==> (#[trigger] regs@[j]).base + regs@[j].size <= usize::MAX,
        decreases regs@.len() - i,
    {
        if regs[i].base.checked_add(regs[i].size).is_none() {
            assert(regs@[i as int].base + regs@[i as int].size > usize::MAX);
            return false;
        }
        i = i + 1;
    }
    true
}

/// Tests whether the registers of a circuit fit.
pub fn test_circuit(circuit: &Circuit) -> (r: bool)
    ensures
        r == circuit.wf(),
{
    test_registers(&circuit.qregs) && test_registers(&circuit.cregs)
}

/// Tests whether some qubits are below `n`.
fn test_qubits(qubits: &Vec<usize>, n: usize) -> (r: bool)
    ensures
        r == qubits_fit(qubits@, n as int),
{
    let mut i: usize = 0;
    while i < qubits.len()
        invariant
            i <= qubits@.len(),
            forall|j: int| 0 <= j < i ==> #[trigger] qubits@[j] < n,
        decreases qubits@.len() - i,
    {
        if qubits[i] >= n {
            return false;
        }
        i = i + 1;
    }
    true
}

/// Tests whether the register of a condition fits.
fn test_register_of(condition: &Condition) -> (r: bool)
    ensures
        r == condition_fits(*condition),
{
    condition.creg_size <= 64 && condition.creg_base.checked_add(condition.creg_size).is_some()
}

/// Tests whether an instruction can be run on a state vector of `n` qubits.
pub fn test_runnable(inst: &Instruction, n: usize) -> (r: bool)
    ensures
        r == is_runnable_on(*inst, n as int),
    decreases inst,
{
    match inst {
        Instruction::Gate { name, qubits, .. } => match remote_gate_named(name.as_str()) {
            RemoteGate::PhiPlus
            | RemoteGate::PsiMinus
            | RemoteGate::PsiPlus
            | RemoteGate::Cz
            | RemoteGate::Cx => qubits.len() <= 2 && test_qubits(qubits, n),
            _ => true,
        },
        Instruction::Id { .. } | Instruction::U0 { .. } => true,
        Instruction::Conditional { condition, op } => test_register_of(condition) && test_runnable(
            op,
            n,
        ),
        _ => {
            let qubits: Vec<usize> = inst.qubits();
            test_qubits(&qubits, n)
        },
    }
}

/// Tests whether the state-vector simulator can take a circuit.
pub fn test_simulable(circuit: &Circuit) -> (r: bool)
    ensures
        r == is_simulable(*circuit),
{
    if !test_circuit(circuit) {
        return false;
    }
    let n: usize = circuit.num_qubits();
    if n >= usize::BITS as usize {
        return false;
    }
    let mut i: usize = 0;
    while i < circuit.instructions.len()
        invariant
            i <= circuit.instructions@.len(),
            circuit.wf(),
            n == circuit.qubit_count(),
            n < usize::BITS,
            reaches(circuit.instructions@, i as int),
            forall|j: int|
                0 <= j < i ==> is_runnable_on(#[trigger] circuit.instructions@[j], n as int),
        decreases circuit.instructions@.len() - i,
    {
        if !test_runnable(&circuit.instructions[i], n) {
            assert(!is_runnable_on(circuit.instructions@[i as int], n as int));
            return false;
        }
        if ends_run(&circuit.instructions[i]) {
            assert forall|j: int|
                0 <= j < circuit.instructions@.len() && reaches(
                    circuit.instructions@,
                    j,
                ) implies is_runnable_on(#[trigger] circuit.instructions@[j], n as int) by {
                if j > i {
                    assert(!is_unsupported(circuit.instructions@[i as int]));
                }
            }
            return true;
        }
        i = i + 1;
    }
    true
}

/// Tests whether the qubits of one-qubit gates can be followed by another one.
fn test_gates(instructions: &Vec<Instruction>) -> (r: bool)
    ensures
        r == gates_fit(instructions@),
{
    let mut i: usize = 0;
    while i < instructions.len()
        invariant
            i <= instructions@.len(),
            forall|j: int|
                0 <= j < i ==> (single_gate_qubit(#[trigger] instructions@[j]) matches Some(q)
                    ==> q < usize::MAX),
        decreases instructions@.len() - i,
    {
        match gate_matrix_1q(&instructions[i]) {
            Some((q, _)) => {
                if q == usize::MAX {
                    assert(single_gate_qubit(instructions@[i as int]) == Some(q));
                    return false;
                }
            },
            None => {},
        }
        i = i + 1;
    }
    true
}

/// Tests whether an instruction stays when the qubits are removed that `keep` does not hold.
fn test_retained(touched: &Vec<usize>, keep: &Vec<bool>) -> (r: bool)
    ensures
        r == (retention(touched@, numbering(keep@)) == Ok::<bool, TruncationError>(true)),
{
    let ghost remap = numbering(keep@);
    let mut i: usize = 0;
    while i < touched.len()
        invariant
            i <= touched@.len(),
            remap == numbering(keep@),
            remap.len() == keep@.len(),
            forall|j: int|
                0 <= j < i ==> (#[trigger] touched@[j]) < keep@.len() && keep@[touched@[j] as int],
        decreases touched@.len() - i,
    {
        let q: usize = touched[i];
        if q >= keep.len() {
            assert(is_first_outside(touched@, remap, i as int));
            return false;
        }
        if !keep[q] {
            proof {
                assert(touched@[i as int] < remap.len() && new_number(remap, touched@[i as int])
                    is None);
                assert(touches_removed(touched@, remap));
            }
            return false;
        }
        i = i + 1;
    }
    proof {
        assert forall|j: int| !is_first_outside(touched@, remap, j) by {
            if 0 <= j < touched@.len() {
                assert(touched@[j] < keep@.len());
            }
        }
        assert(!touches_removed(touched@, remap)) by {
            assert forall|j: int| 0 <= j < touched@.len() implies new_number(
                remap,
                #[trigger] touched@[j],
            ) is Some by {
                assert(keep@[touched@[j] as int]);
            }
        }
        if touched@.len() > 0 {
            assert(touched@[0] < keep@.len() && keep@[touched@[0] as int]);
            assert(new_number(remap, touched@[0]) is Some);
            assert(touches_kept(touched@, remap));
        }
    }
    true
}

/// Tests whether the state-vector simulator can take the shots of a circuit.
pub fn test_shot_simulable(circuit: &Circuit, truncation: bool) -> (r: bool)
    ensures
        r == is_shot_simulable(*circuit, truncation),
{
    if !truncation {
        return test_simulable(circuit) && test_gates(&circuit.instructions);
    }
    if !test_circuit(circuit) {
        return false;
    }
    let n: usize = circuit.num_qubits();
    let keep: Vec<bool> = count_relevant_qubits(circuit, n);
    let mut kept: usize = 0;
    let mut q: usize = 0;
    while q < n
        invariant
            q <= n,
            n == keep@.len(),
            kept <= q,
            kept == kept_below(keep@, q as int),
            kept == q <==> forall|p: int| 0 <= p < q ==> #[trigger] keep@[p],
        decreases n - q,
    {
        if keep[q] {
            kept = kept + 1;
        }
        q = q + 1;
    }
    if kept == n {
        return test_simulable(circuit) && test_gates(&circuit.instructions);
    }
    if kept >= usize::BITS as usize {
        return false;
    }
    let mut i: usize = 0;
    while i < circuit.instructions.len()
        invariant
            i <= circuit.instructions@.len(),
            n == circuit.qubit_count(),
            keep@ == kept_qubits(*circuit),
            truncation,
            reduces(*circuit, truncation),
            circuit.wf(),
            kept_below(keep@, keep@.len() as int) < usize::BITS,
            retained_reach(circuit.instructions@, numbering(keep@), i as int),
            forall|j: int|
                0 <= j < i && is_retained(
                    #[trigger] circuit.instructions@[j],
                    numbering(keep@),
                ) ==> is_runnable_on(circuit.instructions@[j], n as int),
        decreases circuit.instructions@.len() - i,
    {
        let touched: Vec<usize> = circuit.instructions[i].qubits();
        if test_retained(&touched, &keep) {
            assert(is_retained(circuit.instructions@[i as int], numbering(keep@)));
            if !test_runnable(&circuit.instructions[i], n) {
                assert(!is_runnable_on(circuit.instructions@[i as int], n as int));
                return false;
            }
            if ends_run(&circuit.instructions[i]) {
                assert forall|j: int|
                    0 <= j < circuit.instructions@.len() && is_retained(
                        #[trigger] circuit.instructions@[j],
                        numbering(keep@),
                    ) && retained_reach(
                        circuit.instructions@,
                        numbering(keep@),
                        j,
                    ) implies is_runnable_on(circuit.instructions@[j], n as int) by {
                    if j > i {
                        assert(!is_unsupported(circuit.instructions@[i as int]));
                    }
                }
                return true;
            }
        }
        i = i + 1;
    }
    true
}

/// Tests whether an instruction can be run on a matrix product state of `n` qubits.
pub fn test_mps_runnable(inst: &Instruction, n: usize) -> (r: bool)
    ensures
        r == is_mps_runnable(*inst, n as int),
    decreases inst,
{
    match inst {
        Instruction::Id { .. } | Instruction::U0 { .. } => true,
        Instruction::Measure { qubit, .. } | Instruction::Reset { qubit } => *qubit < n,
        Instruction::Gate { name, qubits, .. } => {
            let lower: String = lower_text(name.as_str());
            let gate: RemoteGate = if same_text(lower.as_str(), "epr") {
                RemoteGate::PhiPlus
            } else {
                remote_gate(lower.as_str())
            };
            match gate {
                RemoteGate::PhiPlus
                | RemoteGate::PsiMinus
                | RemoteGate::PsiPlus
                | RemoteGate::Cz
                | RemoteGate::Cx => qubits.len() >= 2 && qubits[0] < n && qubits[1] < n,
                _ => true,
            }
        },
        Instruction::Conditional { condition, op } => test_register_of(condition)
            && test_mps_runnable(op, n),
        _ => match gate_matrix_1q(inst) {
            Some((qubit, _)) => qubit < n,
            None => match mps_instruction_qubit_pair(inst) {
                Some((first, second)) => first < n && second < n,
                None => true,
            },
        },
    }
}

/// Tests whether the simulator with matrix product states can take a circuit.
pub fn test_mps_simulable(circuit: &Circuit) -> (r: bool)
    ensures
        r == (circuit.wf() && all_mps_runnable(
            circuit.instructions@,
            circuit.qubit_count() as int,
        )),
{
    if !test_circuit(circuit) {
        return false;
    }
    let n: usize = circuit.num_qubits();
    let mut i: usize = 0;
    while i < circuit.instructions.len()
        invariant
            i <= circuit.instructions@.len(),
            circuit.wf(),
            n == circuit.qubit_count(),
            forall|j: int|
                0 <= j < i ==> is_mps_runnable(#[trigger] circuit.instructions@[j], n as int),
        decreases circuit.instructions@.len() - i,
    {
        if !test_mps_runnable(&circuit.instructions[i], n) {
            assert(!is_mps_runnable(circuit.instructions@[i as int], n as int));
            return false;
        }
        i = i + 1;
    }
    true
}

/// Tests whether the simulator of Clifford circuits can take a circuit.
pub fn test_stabilizer_runnable(circuit: &Circuit) -> (r: bool)
    ensures
        r == is_runnable(*circuit),
{
    if !test_circuit(circuit) {
        return false;
    }
    let n: usize = circuit.num_qubits();
    if n > MAX_STABILIZER_QUBITS {
        return false;
    }
    let mut i: usize = 0;
    while i < circuit.instructions.len()
        invariant
            i <= circuit.instructions@.len(),
            circuit.wf(),
            n == circuit.qubit_count(),
            n <= MAX_STABILIZER_QUBITS,
            all_clifford(circuit.instructions@, i as int),
            forall|j: int|
                0 <= j < i ==> acts_within(#[trigger] circuit.instructions@[j], n as int),
        decreases circuit.instructions@.len() - i,
    {
        let inst: &Instruction = &circuit.instructions[i];
        if !knows_instruction(inst) {
            assert forall|j: int|
                0 <= j < circuit.instructions@.len() && all_clifford(
                    circuit.instructions@,
                    j,
                ) implies acts_within(#[trigger] circuit.instructions@[j], n as int) by {
                if j > i {
                    assert(is_clifford(circuit.instructions@[i as int]));
                }
            }
            return true;
        }
        let ignored: bool = match inst {
            Instruction::Id { .. } => true,
            _ => false,
        };
        if !ignored {
            let qubits: Vec<usize> = inst.qubits();
            if !test_qubits(&qubits, n) {
                assert(!acts_within(circuit.instructions@[i as int], n as int));
                return false;
            }
        }
        i = i + 1;
    }
    true
}

} // verus!
