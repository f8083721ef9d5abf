//! Instructions on a matrix product state.
//!
//! An instruction is first turned into an action: a gate on one or two qubits, a measurement
//! or a reset. The action is then performed.

use std::collections::HashMap;

use rand_chacha::ChaCha8Rng;
use vstd::prelude::*;

use crate::engine::Matrix2;
use crate::gate_error::{remote_gate, remote_gate_of, GateError, RemoteGate};
use crate::gate_matrix::{
    fixed_gate, gate_matrix_1q, is_fixed_gate, is_matrix_of, rx_gate, ry_gate, rz_gate,
    single_gate_qubit, u1_gate, u3_gate,
};
use crate::gates::{
    controlled_4, cu_inner_matrix, is_controlled_4, is_rxx_of, is_rzz_of, is_swap_4, rxx_gate,
    rzz_gate, swap_4, LinkGates,
};
use crate::instruction::{Instruction, Kind};
use crate::mps::{one_qubit_step, Mps};
use crate::mps_gates::two_qubit_step;
use crate::mps_kernel::{
    cnot_kernel, cy_kernel, cz_kernel, is_cnot_kernel, is_cy_kernel, is_cz_kernel, is_swap_kernel,
    kernel_wf, swap_kernel, Matrix4, MpsTwoQKernel,
};
use crate::mps_routing::qubit_pair;
use crate::mps_state::{bit_value, finds_one, measurement_step};
use crate::random::drawn_unit;
use crate::statevector::{
    condition_fits, condition_holds, is_target_matrix, test_condition,
};
use crate::text::{lower_text, lowercased, same_text};

verus! {

/// What an instruction does to a matrix product state.
pub enum MpsAction {
    Nothing,
    OneQubit { matrix: Matrix2, qubit: usize },
    TwoQubit { gate: Matrix4, a: usize, b: usize, hint: Option<MpsTwoQKernel> },
    Measure { qubit: usize, cbit: usize },
    Reset { qubit: usize },
}

/// Whether `hint` is the kernel that is known beforehand for a gate.
pub open spec fn is_hint_of(inst: Instruction, hint: Option<MpsTwoQKernel>) -> bool {
    match inst {
        Instruction::Cx { .. } => hint is Some && is_cnot_kernel(hint->0),
        Instruction::Cy { .. } => hint is Some && is_cy_kernel(hint->0),
        Instruction::Cz { .. } => hint is Some && is_cz_kernel(hint->0),
        Instruction::Swap { .. } => hint is Some && is_swap_kernel(hint->0),
        _ => hint is None,
    }
}

/// Whether `m` can be the matrix of a two-qubit gate.
pub open spec fn is_pair_matrix(inst: Instruction, m: Matrix4) -> bool {
    match inst {
        Instruction::Swap { .. } => is_swap_4(m),
        Instruction::Rxx { theta, .. } => is_rxx_of(m, theta),
        Instruction::Rzz { theta, .. } => is_rzz_of(m, theta),
        _ => exists|u: Matrix2| #[trigger] is_target_matrix(inst, u) && is_controlled_4(m, u),
    }
}

/// What a gate with a given name in lower case does.
pub open spec fn mps_gate_of(name: Seq<char>) -> RemoteGate {
    if name == "epr"@ {
        RemoteGate::PhiPlus
    } else {
        remote_gate_of(name)
    }
}

/// Whether `action` applies a matrix to the first two of some qubits.
pub open spec fn is_link_action(action: MpsAction, m: Matrix4, qubits: Seq<usize>) -> bool {
    action == (MpsAction::TwoQubit { gate: m, a: qubits[0], b: qubits[1], hint: None })
}

/// Whether `action` applies a controlled gate to the first two of some qubits, by a matrix and
/// a kernel.
pub open spec fn is_remote_controlled(
    action: MpsAction,
    kind: Kind,
    qubits: Seq<usize>,
) -> bool {
    action matches MpsAction::TwoQubit { gate, a, b, hint } && a == qubits[0] && b == qubits[1]
        && hint is Some && (if kind is X {
        is_cnot_kernel(hint->0)
    } else {
        is_cz_kernel(hint->0)
    }) && exists|u: Matrix2| #[trigger] is_fixed_gate(kind, u) && is_controlled_4(gate, u)
}

/// Whether `r` is what a gate with a given name between nodes comes to.
pub open spec fn is_mps_remote_action(
    name: Seq<char>,
    qubits: Seq<usize>,
    links: LinkGates,
    r: Result<MpsAction, GateError>,
) -> bool {
    let lower = lowercased(name);
    match mps_gate_of(lower) {
        RemoteGate::PhiPlus => r is Ok && is_link_action(r->Ok_0, links.phi_plus, qubits),
        RemoteGate::PsiMinus => r is Ok && is_link_action(r->Ok_0, links.psi_minus, qubits),
        RemoteGate::PsiPlus => r is Ok && is_link_action(r->Ok_0, links.psi_plus, qubits),
        RemoteGate::Cz => r is Ok && is_remote_controlled(r->Ok_0, Kind::Z, qubits),
        RemoteGate::Cx => r is Ok && is_remote_controlled(r->Ok_0, Kind::X, qubits),
        RemoteGate::Barrier => r is Ok && r->Ok_0 is Nothing,
        RemoteGate::Cu1 => r is Err && r->Err_0 is SymbolicRemoteCu1,
        RemoteGate::Subcircuit => r is Err && r->Err_0 is OpaqueSubcircuit
            && r->Err_0->OpaqueSubcircuit_name@ == lower,
        RemoteGate::Other => r is Err && r->Err_0 is UnsupportedByMps
            && r->Err_0->UnsupportedByMps_name@ == lower,
    }
}

/// Whether `r` is what an instruction that is not conditional comes to. Gates on more than two
/// qubits are errors.
pub open spec fn is_mps_action_of(
    inst: Instruction,
    links: LinkGates,
    r: Result<MpsAction, GateError>,
) -> bool {
    match inst {
        Instruction::Id { .. }
        | Instruction::U0 { .. }
        | Instruction::Barrier
        | Instruction::Classical { .. }
        | Instruction::Conditional { .. } => r is Ok && r->Ok_0 is Nothing,
        Instruction::Measure { qubit, cbit } => r == Ok::<MpsAction, GateError>(
            MpsAction::Measure { qubit, cbit },
        ),
        Instruction::Reset { qubit } => r == Ok::<MpsAction, GateError>(
            MpsAction::Reset { qubit },
        ),
        Instruction::Gate { name, qubits, .. } => is_mps_remote_action(name@, qubits@, links, r),
        _ => match (single_gate_qubit(inst), qubit_pair(inst)) {
            (Some(q), _) => r is Ok && (r->Ok_0 matches MpsAction::OneQubit { matrix, qubit }
                && is_matrix_of(inst, matrix) && qubit == q),
            (None, Some((first, second))) => r is Ok && (r->Ok_0 matches MpsAction::TwoQubit {
                gate,
                a,
                b,
                hint,
            } && is_pair_matrix(inst, gate) && is_hint_of(inst, hint) && a == first && b
                == second),
            (None, None) => r is Err && r->Err_0 is TooManyQubits,
        },
    }
}

/// Whether an instruction can be run on `n` qubits: those that it acts on exist, and registers
/// fit.
pub open spec fn is_mps_runnable(inst: Instruction, n: int) -> bool
    decreases inst,
{
    match inst {
        Instruction::Id { .. } | Instruction::U0 { .. } => true,
        Instruction::Measure { qubit, .. } | Instruction::Reset { qubit } => qubit < n,
        Instruction::Gate { name, qubits, .. } => match mps_gate_of(lowercased(name@)) {
            RemoteGate::PhiPlus
            | RemoteGate::PsiMinus
            | RemoteGate::PsiPlus
            | RemoteGate::Cz
            | RemoteGate::Cx => qubits@.len() >= 2 && qubits@[0] < n && qubits@[1] < n,
            _ => true,
        },
        Instruction::Conditional { condition, op } => condition_fits(condition) && is_mps_runnable(
            *op,
            n,
        ),
        _ => match (single_gate_qubit(inst), qubit_pair(inst)) {
            (Some(q), _) => q < n,
            (None, Some((first, second))) => first < n && second < n,
            (None, None) => true,
        },
    }
}

/// Whether an action fits a state of `n` qubits.
pub open spec fn mps_action_fits(action: MpsAction, n: int) -> bool {
    match action {
        MpsAction::Nothing => true,
        MpsAction::OneQubit { qubit, .. } => qubit < n,
        MpsAction::TwoQubit { a, b, hint, .. } => a < n && b < n && (hint matches Some(k)
            ==> kernel_wf(k)),
        MpsAction::Measure { qubit, .. } | MpsAction::Reset { qubit } => qubit < n,
    }
}

/// A gate with one control, by its matrix.
fn controlled_pair(inst: &Instruction, u: Matrix2, hint: Option<MpsTwoQKernel>) -> (r: Result<
    MpsAction,
    GateError,
>)
    requires
        is_target_matrix(*inst, u),
        inst.touched().len() == 2,
    ensures
        r is Ok,
        r->Ok_0 matches MpsAction::TwoQubit { gate, a, b, hint: given } && is_pair_matrix(
            *inst,
            gate,
        ) && given == hint && a == inst.touched()[0] && b == inst.touched()[1],
{
    let qubits: Vec<usize> = inst.qubits();
    let gate: Matrix4 = controlled_4(&u);
    assert(is_target_matrix(*inst, u) && is_controlled_4(gate, u));
    Ok(MpsAction::TwoQubit { gate, a: qubits[0], b: qubits[1], hint })
}

/// A gate between nodes.
fn mps_remote_action(name: &String, qubits: &Vec<usize>, links: &LinkGates, Ghost(n): Ghost<int>) -> (r:
    Result<MpsAction, GateError>)
    requires
        match mps_gate_of(lowercased(name@)) {
            RemoteGate::PhiPlus
            | RemoteGate::PsiMinus
            | RemoteGate::PsiPlus
            | RemoteGate::Cz
            | RemoteGate::Cx => qubits@.len() >= 2 && qubits@[0] < n && qubits@[1] < n,
            _ => true,
        },
    ensures
        is_mps_remote_action(name@, qubits@, *links, r),
        r matches Ok(action) ==> mps_action_fits(action, n),
{
    let lower: String = lower_text(name.as_str());
    let gate: RemoteGate = if same_text(lower.as_str(), "epr") {
        RemoteGate::PhiPlus
    } else {
        remote_gate(lower.as_str())
    };
    match gate {
        RemoteGate::PhiPlus => Ok(
            MpsAction::TwoQubit {
                gate: links.phi_plus,
                a: qubits[0],
                b: qubits[1],
                hint: None,
            },
        ),
        RemoteGate::PsiMinus => Ok(
            MpsAction::TwoQubit {
                gate: links.psi_minus,
                a: qubits[0],
                b: qubits[1],
                hint: None,
            },
        ),
        RemoteGate::PsiPlus => Ok(
            MpsAction::TwoQubit {
                gate: links.psi_plus,
                a: qubits[0],
                b: qubits[1],
                hint: None,
            },
        ),
        RemoteGate::Cz => {
            let z: Matrix2 = fixed_gate(Kind::Z);
            assert(is_fixed_gate(Kind::Z, z));
            Ok(
                MpsAction::TwoQubit {
                    gate: controlled_4(&z),
                    a: qubits[0],
                    b: qubits[1],
                    hint: Some(cz_kernel()),
                },
            )
        },
        RemoteGate::Cx => {
            let x: Matrix2 = fixed_gate(Kind::X);
            assert(is_fixed_gate(Kind::X, x));
            Ok(
                MpsAction::TwoQubit {
                    gate: controlled_4(&x),
                    a: qubits[0],
                    b: qubits[1],
                    hint: Some(cnot_kernel()),
                },
            )
        },
        RemoteGate::Barrier => Ok(MpsAction::Nothing),
        RemoteGate::Cu1 => Err(GateError::SymbolicRemoteCu1),
        RemoteGate::Subcircuit => Err(GateError::OpaqueSubcircuit { name: lower }),
        RemoteGate::Other => Err(GateError::UnsupportedByMps { name: lower }),
    }
}

/// What an instruction that is not conditional does.
#[verifier::rlimit(60)]
pub fn mps_instruction_action(inst: &Instruction, links: &LinkGates, n: usize) -> (r: Result<
    MpsAction,
    GateError,
>)
    requires
        is_mps_runnable(*inst, n as int),
    ensures
        is_mps_action_of(*inst, *links, r),
        r matches Ok(action) ==> mps_action_fits(action, n as int),
{
    match inst {
        Instruction::Id { .. }
        | Instruction::U0 { .. }
        | Instruction::Barrier
        | Instruction::Classical { .. }
        | Instruction::Conditional { .. } => Ok(MpsAction::Nothing),
        Instruction::Measure { qubit, cbit } => Ok(
            MpsAction::Measure { qubit: *qubit, cbit: *cbit },
        ),
        Instruction::Reset { qubit } => Ok(MpsAction::Reset { qubit: *qubit }),
        Instruction::Gate { name, qubits, .. } => mps_remote_action(
            name,
            qubits,
            links,
            Ghost(n as int),
        ),
        Instruction::Cx { .. } => controlled_pair(
            inst,
            fixed_gate(Kind::X),
            Some(cnot_kernel()),
        ),
        Instruction::Cz { .. } => controlled_pair(inst, fixed_gate(Kind::Z), Some(cz_kernel())),
        Instruction::Cy { .. } => controlled_pair(inst, fixed_gate(Kind::Y), Some(cy_kernel())),
        Instruction::Ch { .. } => controlled_pair(inst, fixed_gate(Kind::H), None),
        Instruction::Csx { .. } => controlled_pair(inst, fixed_gate(Kind::Sx), None),
        Instruction::Crx { theta, .. } => controlled_pair(inst, rx_gate(*theta), None),
        Instruction::Cry { theta, .. } => controlled_pair(inst, ry_gate(*theta), None),
        Instruction::Crz { lam, .. } => controlled_pair(inst, rz_gate(*lam), None),
        Instruction::Cu1 { lam, .. } => controlled_pair(inst, u1_gate(*lam), None),
        Instruction::Cp { lam, .. } => controlled_pair(inst, u1_gate(*lam), None),
        Instruction::Cu3 { theta, phi, lam, .. } => controlled_pair(
            inst,
            u3_gate(*theta, *phi, *lam),
            None,
        ),
        Instruction::Cu { theta, phi, lam, gamma, .. } => controlled_pair(
            inst,
            cu_inner_matrix(*theta, *phi, *lam, *gamma),
            None,
        ),
        Instruction::Swap { a, b } => Ok(
            MpsAction::TwoQubit { gate: swap_4(), a: *a, b: *b, hint: Some(swap_kernel()) },
        ),
        Instruction::Rxx { a, b, theta } => Ok(
            MpsAction::TwoQubit { gate: rxx_gate(*theta), a: *a, b: *b, hint: None },
        ),
        Instruction::Rzz { a, b, theta } => Ok(
            MpsAction::TwoQubit { gate: rzz_gate(*theta), a: *a, b: *b, hint: None },
        ),
        _ => match gate_matrix_1q(inst) {
            Some((qubit, matrix)) => Ok(MpsAction::OneQubit { matrix, qubit }),
            None => Err(GateError::TooManyQubits),
        },
    }
}

/// Where a run stands: the state, the classical bits and the generator.
pub struct MpsPoint {
    pub mps: Mps,
    pub cbits: Map<usize, i32>,
    pub rng: ChaCha8Rng,
}

/// Whether a reset leads from one state to another: a measurement, and an X gate where it
/// found 1.
pub open spec fn reset_step(before: Mps, qubit: int, rng: ChaCha8Rng, after: Mps) -> bool {
    if finds_one(before, qubit, rng) {
        exists|mid: Mps, x: Matrix2| #[trigger]
            one_qubit_step(mid, qubit, x, after) && is_fixed_gate(Kind::X, x) && measurement_step(
                before,
                qubit,
                rng,
                mid,
            )
    } else {
        measurement_step(before, qubit, rng, after)
    }
}

/// Whether an action can lead from one point to another, with a result.
pub open spec fn acts_to(
    action: MpsAction,
    ahead: Seq<Instruction>,
    before: MpsPoint,
    after: MpsPoint,
    res: Result<(), GateError>,
) -> bool {
    match action {
        MpsAction::Nothing => after == before && res is Ok,
        MpsAction::OneQubit { matrix, qubit } => {
            &&& one_qubit_step(before.mps, qubit as int, matrix, after.mps)
            &&& after.cbits == before.cbits && after.rng == before.rng && res is Ok
        },
        MpsAction::TwoQubit { gate, a, b, hint } => {
            &&& two_qubit_step(
                before.mps,
                a as int,
                b as int,
                gate,
                ahead,
                hint,
                after.mps,
                res,
            )
            &&& after.cbits == before.cbits && after.rng == before.rng
        },
        MpsAction::Measure { qubit, cbit } => {
            &&& measurement_step(before.mps, qubit as int, before.rng, after.mps)
            &&& after.cbits == before.cbits.insert(
                cbit,
                bit_value(finds_one(before.mps, qubit as int, before.rng)) as i32,
            )
            &&& after.rng == drawn_unit(before.rng).1 && res is Ok
        },
        MpsAction::Reset { qubit } => {
            &&& reset_step(before.mps, qubit as int, before.rng, after.mps)
            &&& after.cbits == before.cbits
            &&& after.rng == drawn_unit(before.rng).1 && res is Ok
        },
    }
}

/// Whether running an instruction can lead from one point to another, with a result. What a
/// condition guards is run without looking ahead; an instruction that cannot be simulated
/// changes nothing.
pub open spec fn mps_steps_to(
    inst: Instruction,
    ahead: Seq<Instruction>,
    links: LinkGates,
    before: MpsPoint,
    after: MpsPoint,
    res: Result<(), GateError>,
) -> bool
    decreases inst,
{
    match inst {
        Instruction::Conditional { condition, op } => if condition_holds(before.cbits, condition) {
            mps_steps_to(*op, Seq::empty(), links, before, after, res)
        } else {
            after == before && res is Ok
        },
        _ => exists|action: Result<MpsAction, GateError>| #[trigger]
            is_mps_action_of(inst, links, action) && match action {
                Ok(act) => acts_to(act, ahead, before, after, res),
                Err(e) => after == before && res == Err::<(), GateError>(e),
            },
    }
}

/// Performs an action.
fn perform_mps_action(
    mps: &mut Mps,
    action: &MpsAction,
    lookahead: &[Instruction],
    cbits: &mut HashMap<usize, i32>,
    rng: &mut ChaCha8Rng,
) -> (res: Result<(), GateError>)
    requires
        old(mps).wf(),
        mps_action_fits(*action, old(mps).tensors@.len() as int),
    ensures
        final(mps).wf(),
        final(mps).tensors@.len() == old(mps).tensors@.len(),
        acts_to(
            *action,
            lookahead@,
            (MpsPoint { mps: *old(mps), cbits: old(cbits)@, rng: *old(rng) }),
            (MpsPoint { mps: *final(mps), cbits: final(cbits)@, rng: *final(rng) }),
            res,
        ),
{
    broadcast use vstd::std_specs::hash::group_hash_axioms;

    match action {
        MpsAction::Nothing => Ok(()),
        MpsAction::OneQubit { matrix, qubit } => {
            mps.apply_1q(*qubit, matrix);
            Ok(())
        },
        MpsAction::TwoQubit { gate, a, b, hint } => match hint {
            Some(kernel) => mps.apply_2q_with_kernel_hint(
                *a,
                *b,
                gate,
                lookahead,
                Some(*kernel),
            ),
            None => mps.apply_2q(*a, *b, gate, lookahead),
        },
        MpsAction::Measure { qubit, cbit } => {
            let outcome: usize = mps.measure(*qubit, rng);
            cbits.insert(*cbit, outcome as i32);
            Ok(())
        },
        MpsAction::Reset { qubit } => {
            let outcome: usize = mps.measure(*qubit, rng);
            if outcome == 1 {
                let x: Matrix2 = fixed_gate(Kind::X);
                assert(is_fixed_gate(Kind::X, x));
                let ghost mid = *mps;
                mps.apply_1q(*qubit, &x);
                assert(one_qubit_step(mid, *qubit as int, x, *mps));
            }
            Ok(())
        },
    }
}

/// Runs an instruction; `lookahead` are the instructions after it.
pub fn run_instruction(
    mps: &mut Mps,
    inst: &Instruction,
    lookahead: &[Instruction],
    cbits: &mut HashMap<usize, i32>,
    rng: &mut ChaCha8Rng,
    links: &LinkGates,
) -> (res: Result<(), GateError>)
    requires
        old(mps).wf(),
        is_mps_runnable(*inst, old(mps).tensors@.len() as int),
    ensures
        final(mps).wf(),
        final(mps).tensors@.len() == old(mps).tensors@.len(),
        mps_steps_to(
            *inst,
            lookahead@,
            *links,
            (MpsPoint { mps: *old(mps), cbits: old(cbits)@, rng: *old(rng) }),
            (MpsPoint { mps: *final(mps), cbits: final(cbits)@, rng: *final(rng) }),
            res,
        ),
    decreases inst,
{
    match inst {
        Instruction::Conditional { condition, op } => {
            if test_condition(cbits, condition) {
                let nothing: Vec<Instruction> = Vec::new();
                assert(nothing@ =~= Seq::<Instruction>::empty());
                run_instruction(mps, op, nothing.as_slice(), cbits, rng, links)
            } else {
                Ok(())
            }
        },
        _ => {
            let n: usize = mps.tensors.len();
            let action: Result<MpsAction, GateError> = mps_instruction_action(inst, links, n);
            assert(is_mps_action_of(*inst, *links, action));
            match action {
                Ok(act) => perform_mps_action(mps, &act, lookahead, cbits, rng),
                Err(e) => Err(e),
            }
        },
    }
}

} // verus!
