//! The state-vector simulator.
//!
//! An instruction is first turned into an action on the state: a gate with its matrix, one of
//! the specialised kernels, a measurement or a reset. The action is then performed.

use std::collections::HashMap;

use num_complex::Complex64;
use rand_chacha::ChaCha8Rng;
use vstd::prelude::*;

use crate::bits::dimension;
use crate::circuit::{cbit_value, read_cbit};
use crate::complex::real_less;
use crate::config::{statevector_multi_control_kernels_enabled_for, KernelConfig};
use crate::engine::{
    apply_cswap_kernel_seq, apply_cx_kernel_seq, apply_cz_kernel_seq,
    apply_multi_controlled_x_kernel_seq, apply_one_qubit_seq, apply_swap_kernel_seq, cswap_applied,
    cx_applied, cz_applied, mcx_applied, one_qubit_applied, swap_applied, Matrix2,
};
use crate::gate_error::{remote_gate_named, remote_gate_of, GateError, RemoteGate};
use crate::gate_matrix::{
    fixed_gate, gate_matrix_1q, is_fixed_gate, is_matrix_of, is_phase_of, is_rx_of, is_ry_of,
    is_rz_of, is_u3_of, rx_gate, ry_gate, rz_gate, u1_gate, u3_gate,
};
use crate::gates::{
    controlled_gate, controlled_swap, copy_rows, cu_inner_matrix, holds_4, is_controlled,
    is_controlled_swap, is_cu_inner, is_rxx_of, is_rzz_of, is_square, lemma_small_dimensions, rows_of_4,
    rxx_gate, rzz_gate, LinkGates,
};
use crate::instruction::{Condition, Instruction, Kind};
use crate::measure::{collapsed, measure_qubit_seq, probability_one};
use crate::mps_kernel::Matrix4;
use crate::random::drawn_unit;
use crate::text::{lower_text, lowercased};
use crate::wide_gate::{apply_n_qubit_seq, is_gate_matrix, n_qubit_applied, qubits_fit};

verus! {

/// What an instruction does to the state.
pub enum Action {
    Nothing,
    /// A one-qubit gate, possibly with controls.
    OneQubit { matrix: Matrix2, target: usize, controls: Vec<(usize, bool)> },
    /// A gate on several qubits.
    MultiQubit { rows: Vec<Vec<Complex64>>, qubits: Vec<usize> },
    ControlledX { control: usize, target: usize },
    ControlledZ { control: usize, target: usize },
    MultiControlledX { wires: Vec<usize>, target: usize },
    Swap { a: usize, b: usize },
    ControlledSwap { control: usize, a: usize, b: usize },
    Measure { qubit: usize, cbit: usize },
    Reset { qubit: usize },
}

/// Whether `m` can be the matrix that a controlled gate applies to its target.
pub open spec fn is_target_matrix(inst: Instruction, m: Matrix2) -> bool {
    match inst {
        Instruction::Cx { .. }
        | Instruction::Ccx { .. }
        | Instruction::C3x { .. }
        | Instruction::C4x { .. } => is_fixed_gate(Kind::X, m),
        Instruction::Cz { .. } => is_fixed_gate(Kind::Z, m),
        Instruction::Cy { .. } => is_fixed_gate(Kind::Y, m),
        Instruction::Ch { .. } => is_fixed_gate(Kind::H, m),
        Instruction::Csx { .. } | Instruction::C3sqrtx { .. } => is_fixed_gate(Kind::Sx, m),
        Instruction::Crx { theta, .. } => is_rx_of(m, theta),
        Instruction::Cry { theta, .. } => is_ry_of(m, theta),
        Instruction::Crz { lam, .. } => is_rz_of(m, lam),
        Instruction::Cu1 { lam, .. } | Instruction::Cp { lam, .. } => is_phase_of(m, lam),
        Instruction::Cu3 { theta, phi, lam, .. } => is_u3_of(m, theta, phi, lam),
        Instruction::Cu { theta, phi, lam, gamma, .. } => is_cu_inner(m, theta, phi, lam, gamma),
        _ => false,
    }
}

/// Whether `action` is a one-qubit gate on the last qubit of a controlled gate, with the matrix
/// that it applies to its target, and all qubits before it as controls that must be set.
pub open spec fn is_controlled_action(action: Action, inst: Instruction) -> bool {
    action matches Action::OneQubit { matrix, target, controls } && is_target_matrix(inst, matrix)
        && target == inst.touched().last() && controls@ == inst.touched().drop_last().map_values(
        |q: usize| (q, true),
    )
}

/// Whether `action` is a controlled gate on its qubits, given by its whole matrix.
pub open spec fn is_matrix_action(action: Action, inst: Instruction) -> bool {
    action matches Action::MultiQubit { rows: matrix, qubits: on } && on@ == inst.touched()
        && exists|m: Matrix2| #[trigger]
        is_target_matrix(inst, m) && is_controlled(
            matrix@,
            (inst.touched().len() - 1) as nat,
            m,
        )
}

/// Whether `action` is a gate on some qubits with the rows of `m`.
pub open spec fn is_rows_action(action: Action, m: Matrix4, qubits: Seq<usize>) -> bool {
    action matches Action::MultiQubit { rows: matrix, qubits: on } && on@ == qubits && holds_4(
        matrix@,
        m,
    )
}

/// Whether `action` is a gate on some qubits with given rows.
pub open spec fn is_copied_action(
    action: Action,
    rows: Seq<Vec<Complex64>>,
    qubits: Seq<usize>,
) -> bool {
    action matches Action::MultiQubit { rows: matrix, qubits: on } && on@ == qubits && matrix@.len()
        == rows.len() && forall|r: int|
        0 <= r < rows.len() ==> (#[trigger] matrix@[r])@ == rows[r]@
}

/// Whether gates with several controls use their own kernels.
pub open spec fn multi_control(config: KernelConfig, n: usize) -> bool {
    config.two_qubit_kernels && n >= config.multi_control_min_qubits
}

/// Whether `r` is what a gate with a given name between nodes comes to.
pub open spec fn is_remote_action(
    name: Seq<char>,
    qubits: Seq<usize>,
    links: LinkGates,
    names_subcircuits: bool,
    r: Result<Action, GateError>,
) -> bool {
    let lower = lowercased(name);
    match remote_gate_of(lower) {
        RemoteGate::PhiPlus => r is Ok && is_rows_action(r->Ok_0, links.phi_plus, qubits),
        RemoteGate::PsiMinus => r is Ok && is_rows_action(r->Ok_0, links.psi_minus, qubits),
        RemoteGate::PsiPlus => r is Ok && is_rows_action(r->Ok_0, links.psi_plus, qubits),
        RemoteGate::Cz => r is Ok && (r->Ok_0 matches Action::MultiQubit { rows: matrix, qubits: on }
            && on@ == qubits && exists|m: Matrix2| #[trigger]
            is_fixed_gate(Kind::Z, m) && is_controlled(matrix@, 1, m)),
        RemoteGate::Cx => r is Ok && (r->Ok_0 matches Action::MultiQubit { rows: matrix, qubits: on }
            && on@ == qubits && exists|m: Matrix2| #[trigger]
            is_fixed_gate(Kind::X, m) && is_controlled(matrix@, 1, m)),
        RemoteGate::Barrier => r is Ok && r->Ok_0 is Nothing,
        RemoteGate::Cu1 => r is Err && r->Err_0 is SymbolicRemoteCu1,
        RemoteGate::Subcircuit => r is Err && (if names_subcircuits {
            r->Err_0 is OpaqueSubcircuit && r->Err_0->OpaqueSubcircuit_name@ == lower
        } else {
            r->Err_0 is UnsupportedGate && r->Err_0->UnsupportedGate_name@ == lower
        }),
        RemoteGate::Other => r is Err && r->Err_0 is UnsupportedGate
            && r->Err_0->UnsupportedGate_name@ == lower,
    }
}

/// Whether `r` is what an instruction that is not conditional comes to.
pub open spec fn is_action_of(
    inst: Instruction,
    n: usize,
    config: KernelConfig,
    links: LinkGates,
    names_subcircuits: bool,
    r: Result<Action, GateError>,
) -> bool {
    let qubits = inst.touched();
    match inst {
        Instruction::Id { .. }
        | Instruction::U0 { .. }
        | Instruction::Barrier
        | Instruction::Classical { .. } => r is Ok && r->Ok_0 is Nothing,
        Instruction::X { .. }
        | Instruction::Y { .. }
        | Instruction::Z { .. }
        | Instruction::H { .. }
        | Instruction::S { .. }
        | Instruction::Sdg { .. }
        | Instruction::T { .. }
        | Instruction::Tdg { .. }
        | Instruction::Sx { .. }
        | Instruction::Sxdg { .. }
        | Instruction::U3 { .. }
        | Instruction::U2 { .. }
        | Instruction::U1 { .. }
        | Instruction::U { .. }
        | Instruction::P { .. }
        | Instruction::Rx { .. }
        | Instruction::Ry { .. }
        | Instruction::Rz { .. } => r is Ok && (r->Ok_0 matches Action::OneQubit {
            matrix,
            target,
            controls,
        } && is_matrix_of(inst, matrix) && target == qubits[0] && controls@.len() == 0),
        Instruction::Cx { control, target } => r is Ok && (if config.two_qubit_kernels {
            r->Ok_0 == (Action::ControlledX { control, target })
        } else {
            is_matrix_action(r->Ok_0, inst)
        }),
        Instruction::Cz { control, target } => r is Ok && (if config.two_qubit_kernels {
            r->Ok_0 == (Action::ControlledZ { control, target })
        } else {
            is_matrix_action(r->Ok_0, inst)
        }),
        Instruction::Cy { .. }
        | Instruction::Ch { .. }
        | Instruction::Csx { .. }
        | Instruction::Crx { .. }
        | Instruction::Cry { .. }
        | Instruction::Crz { .. }
        | Instruction::Cu1 { .. }
        | Instruction::Cp { .. }
        | Instruction::Cu3 { .. }
        | Instruction::Cu { .. } => r is Ok && (if config.two_qubit_kernels {
            is_controlled_action(r->Ok_0, inst)
        } else {
            is_matrix_action(r->Ok_0, inst)
        }),
        Instruction::Swap { a, b } => r is Ok && (if config.two_qubit_kernels {
            r->Ok_0 == (Action::Swap { a, b })
        } else {
            r->Ok_0 matches Action::MultiQubit { rows: matrix, qubits: on } && on@ == qubits
                && is_controlled_swap(matrix@, 0)
        }),
        Instruction::Rxx { theta, .. } => r is Ok && exists|m: Matrix4| #[trigger]
            is_rxx_of(m, theta) && is_rows_action(r->Ok_0, m, qubits),
        Instruction::Rzz { theta, .. } => r is Ok && exists|m: Matrix4| #[trigger]
            is_rzz_of(m, theta) && is_rows_action(r->Ok_0, m, qubits),
        Instruction::Ccx { .. } | Instruction::C3x { .. } | Instruction::C4x { .. } => r is Ok && (
        if multi_control(config, n) {
            r->Ok_0 matches Action::MultiControlledX { wires: controls, target } && controls@
                == qubits.drop_last() && target == qubits.last()
        } else {
            is_matrix_action(r->Ok_0, inst)
        }),
        Instruction::C3sqrtx { .. } => r is Ok && (if multi_control(config, n) {
            is_controlled_action(r->Ok_0, inst)
        } else {
            is_matrix_action(r->Ok_0, inst)
        }),
        Instruction::Cswap { control, target1, target2 } => r is Ok && (if multi_control(config, n) {
            r->Ok_0 == (Action::ControlledSwap { control, a: target1, b: target2 })
        } else {
            r->Ok_0 matches Action::MultiQubit { rows: matrix, qubits: on } && on@ == qubits
                && is_controlled_swap(matrix@, 1)
        }),
        Instruction::Rccx { .. } => r is Ok && is_copied_action(r->Ok_0, links.rccx@, qubits),
        Instruction::Rc3x { .. } => r is Ok && is_copied_action(r->Ok_0, links.rc3x@, qubits),
        Instruction::Gate { name, qubits: on, .. } => is_remote_action(
            name@,
            on@,
            links,
            names_subcircuits,
            r,
        ),
        Instruction::Measure { qubit, cbit } => r == Ok::<Action, GateError>(
            Action::Measure { qubit, cbit },
        ),
        Instruction::Reset { qubit } => r == Ok::<Action, GateError>(Action::Reset { qubit }),
        Instruction::Conditional { .. } => r is Ok && r->Ok_0 is Nothing,
    }
}

/// The controls that some qubits are when all of them must be set.
fn set_controls(qubits: &[usize]) -> (r: Vec<(usize, bool)>)
    ensures
        r@ == qubits@.map_values(|q: usize| (q, true)),
{
    let mut list: Vec<(usize, bool)> = Vec::new();
    let mut i: usize = 0;
    while i < qubits.len()
        invariant
            i <= qubits@.len(),
            list@.len() == i,
            forall|j: int| 0 <= j < i ==> #[trigger] list@[j] == (qubits@[j], true),
        decreases qubits@.len() - i,
    {
        list.push((qubits[i], true));
        i = i + 1;
    }
    assert(list@ =~= qubits@.map_values(|q: usize| (q, true)));
    list
}

/// A gate on the last of some qubits, controlled by the others: through the kernel for
/// one-qubit gates or by its whole matrix.
fn controlled_action(
    inst: &Instruction,
    matrix: Matrix2,
    use_kernel: bool,
) -> (r: Result<Action, GateError>)
    requires
        1 <= inst.touched().len() <= 5,
        is_target_matrix(*inst, matrix),
    ensures
        r is Ok,
        use_kernel ==> is_controlled_action(r->Ok_0, *inst),
        !use_kernel ==> is_matrix_action(r->Ok_0, *inst),
{
    let mut qubits: Vec<usize> = inst.qubits();
    let ghost touched = qubits@;
    if use_kernel {
        let target: usize = qubits[qubits.len() - 1];
        qubits.truncate(qubits.len() - 1);
        assert(qubits@ =~= touched.drop_last());
        let controls: Vec<(usize, bool)> = set_controls(qubits.as_slice());
        Ok(Action::OneQubit { matrix, target, controls })
    } else {
        let rows: Vec<Vec<Complex64>> = controlled_gate(qubits.len() - 1, &matrix);
        assert(is_target_matrix(*inst, matrix));
        Ok(Action::MultiQubit { rows: rows, qubits })
    }
}

/// An X gate on the last of some qubits, controlled by the others.
fn controlled_x_action(inst: &Instruction, use_kernel: bool) -> (r: Result<Action, GateError>)
    requires
        1 <= inst.touched().len() <= 5,
        inst is Ccx || inst is C3x || inst is C4x,
    ensures
        r is Ok,
        use_kernel ==> (r->Ok_0 matches Action::MultiControlledX { wires: controls, target } && controls@
            == inst.touched().drop_last() && target == inst.touched().last()),
        !use_kernel ==> is_matrix_action(r->Ok_0, *inst),
{
    if use_kernel {
        let mut qubits: Vec<usize> = inst.qubits();
        let ghost touched = qubits@;
        let target: usize = qubits[qubits.len() - 1];
        qubits.truncate(qubits.len() - 1);
        assert(qubits@ =~= touched.drop_last());
        Ok(Action::MultiControlledX { wires: qubits, target })
    } else {
        controlled_action(inst, fixed_gate(Kind::X), false)
    }
}

/// A gate between nodes.
fn remote_action(
    name: &String,
    qubits: &Vec<usize>,
    links: &LinkGates,
    names_subcircuits: bool,
) -> (r: Result<Action, GateError>)
    ensures
        is_remote_action(name@, qubits@, *links, names_subcircuits, r),
{
    let on: Vec<usize> = vstd::slice::slice_to_vec(qubits.as_slice());
    match remote_gate_named(name.as_str()) {
        RemoteGate::PhiPlus => Ok(
            Action::MultiQubit { rows: rows_of_4(&links.phi_plus), qubits: on },
        ),
        RemoteGate::PsiMinus => Ok(
            Action::MultiQubit { rows: rows_of_4(&links.psi_minus), qubits: on },
        ),
        RemoteGate::PsiPlus => Ok(
            Action::MultiQubit { rows: rows_of_4(&links.psi_plus), qubits: on },
        ),
        RemoteGate::Cz => {
            let z: Matrix2 = fixed_gate(Kind::Z);
            assert(is_fixed_gate(Kind::Z, z));
            Ok(Action::MultiQubit { rows: controlled_gate(1, &z), qubits: on })
        },
        RemoteGate::Cx => {
            let x: Matrix2 = fixed_gate(Kind::X);
            assert(is_fixed_gate(Kind::X, x));
            Ok(Action::MultiQubit { rows: controlled_gate(1, &x), qubits: on })
        },
        RemoteGate::Barrier => Ok(Action::Nothing),
        RemoteGate::Cu1 => Err(GateError::SymbolicRemoteCu1),
        RemoteGate::Subcircuit => {
            if names_subcircuits {
                Err(GateError::OpaqueSubcircuit { name: lower_text(name.as_str()) })
            } else {
                Err(GateError::UnsupportedGate { name: lower_text(name.as_str()) })
            }
        },
        RemoteGate::Other => Err(GateError::UnsupportedGate { name: lower_text(name.as_str()) }),
    }
}

/// What an instruction that is not conditional does. `names_subcircuits` tells whether opaque
/// subcircuits have an error of their own.
#[verifier::rlimit(60)]
pub fn instruction_action(
    inst: &Instruction,
    n: usize,
    config: KernelConfig,
    links: &LinkGates,
    names_subcircuits: bool,
) -> (r: Result<Action, GateError>)
    ensures
        is_action_of(*inst, n, config, *links, names_subcircuits, r),
{
    let kernels: bool = config.two_qubit_kernels;
    let multi: bool = statevector_multi_control_kernels_enabled_for(config, n);
    match inst {
        Instruction::Id { .. }
        | Instruction::U0 { .. }
        | Instruction::Barrier
        | Instruction::Classical { .. }
        | Instruction::Conditional { .. } => Ok(Action::Nothing),
        Instruction::X { .. }
        | Instruction::Y { .. }
        | Instruction::Z { .. }
        | Instruction::H { .. }
        | Instruction::S { .. }
        | Instruction::Sdg { .. }
        | Instruction::T { .. }
        | Instruction::Tdg { .. }
        | Instruction::Sx { .. }
        | Instruction::Sxdg { .. }
        | Instruction::U3 { .. }
        | Instruction::U2 { .. }
        | Instruction::U1 { .. }
        | Instruction::U { .. }
        | Instruction::P { .. }
        | Instruction::Rx { .. }
        | Instruction::Ry { .. }
        | Instruction::Rz { .. } => match gate_matrix_1q(inst) {
            Some((qubit, matrix)) => Ok(
                Action::OneQubit { matrix, target: qubit, controls: Vec::new() },
            ),
            None => Ok(Action::Nothing),
        },
        Instruction::Cx { control, target } => {
            if kernels {
                Ok(Action::ControlledX { control: *control, target: *target })
            } else {
                controlled_action(inst, fixed_gate(Kind::X), false)
            }
        },
        Instruction::Cz { control, target } => {
            if kernels {
                Ok(Action::ControlledZ { control: *control, target: *target })
            } else {
                controlled_action(inst, fixed_gate(Kind::Z), false)
            }
        },
        Instruction::Cy { .. } => controlled_action(inst, fixed_gate(Kind::Y), kernels),
        Instruction::Ch { .. } => controlled_action(inst, fixed_gate(Kind::H), kernels),
        Instruction::Csx { .. } => controlled_action(inst, fixed_gate(Kind::Sx), kernels),
        Instruction::Crx { theta, .. } => controlled_action(inst, rx_gate(*theta), kernels),
        Instruction::Cry { theta, .. } => controlled_action(inst, ry_gate(*theta), kernels),
        Instruction::Crz { lam, .. } => controlled_action(inst, rz_gate(*lam), kernels),
        Instruction::Cu1 { lam, .. } => controlled_action(inst, u1_gate(*lam), kernels),
        Instruction::Cp { lam, .. } => controlled_action(inst, u1_gate(*lam), kernels),
        Instruction::Cu3 { theta, phi, lam, .. } => controlled_action(
            inst,
            u3_gate(*theta, *phi, *lam),
            kernels,
        ),
        Instruction::Cu { theta, phi, lam, gamma, .. } => controlled_action(
            inst,
            cu_inner_matrix(*theta, *phi, *lam, *gamma),
            kernels,
        ),
        Instruction::Swap { a, b } => {
            if kernels {
                Ok(Action::Swap { a: *a, b: *b })
            } else {
                Ok(Action::MultiQubit { rows: controlled_swap(0), qubits: inst.qubits() })
            }
        },
        Instruction::Rxx { theta, .. } => {
            let m: Matrix4 = rxx_gate(*theta);
            let action: Action = Action::MultiQubit {
                rows: rows_of_4(&m),
                qubits: inst.qubits(),
            };
            assert(is_rows_action(action, m, inst.touched()));
            Ok(action)
        },
        Instruction::Rzz { theta, .. } => {
            let m: Matrix4 = rzz_gate(*theta);
            let action: Action = Action::MultiQubit {
                rows: rows_of_4(&m),
                qubits: inst.qubits(),
            };
            assert(is_rows_action(action, m, inst.touched()));
            Ok(action)
        },
        Instruction::Ccx { .. } | Instruction::C3x { .. } | Instruction::C4x { .. } => {
            controlled_x_action(inst, multi)
        },
        Instruction::C3sqrtx { .. } => controlled_action(inst, fixed_gate(Kind::Sx), multi),
        Instruction::Cswap { control, target1, target2 } => {
            if multi {
                Ok(Action::ControlledSwap { control: *control, a: *target1, b: *target2 })
            } else {
                Ok(Action::MultiQubit { rows: controlled_swap(1), qubits: inst.qubits() })
            }
        },
        Instruction::Rccx { .. } => Ok(
            Action::MultiQubit { rows: copy_rows(&links.rccx), qubits: inst.qubits() },
        ),
        Instruction::Rc3x { .. } => Ok(
            Action::MultiQubit { rows: copy_rows(&links.rc3x), qubits: inst.qubits() },
        ),
        Instruction::Gate { name, qubits, .. } => remote_action(
            name,
            qubits,
            links,
            names_subcircuits,
        ),
        Instruction::Measure { qubit, cbit } => Ok(
            Action::Measure { qubit: *qubit, cbit: *cbit },
        ),
        Instruction::Reset { qubit } => Ok(Action::Reset { qubit: *qubit }),
    }
}

/// How often a run called for the three kinds of work.
#[derive(Clone, Copy, Debug, PartialEq, Eq, Structural)]
pub struct CallTally {
    /// One-qubit gates without controls.
    pub one_qubit: u64,
    /// Gates on several qubits, and specialised kernels.
    pub n_qubit: u64,
    /// Measurements.
    pub measure: u64,
}

/// No calls.
pub open spec fn no_calls() -> CallTally {
    CallTally { one_qubit: 0, n_qubit: 0, measure: 0 }
}

/// Where a run stands: the amplitudes, the classical bits and the generator.
pub struct SvState {
    pub amps: Seq<Complex64>,
    pub cbits: Map<usize, i32>,
    pub rng: ChaCha8Rng,
}

/// The matrix of the X gate.
pub open spec fn x_gate() -> Matrix2 {
    choose|m: Matrix2| is_fixed_gate(Kind::X, m)
}

/// A gate is given by its entries.
pub proof fn lemma_same_entries(
    s: Seq<Complex64>,
    a: Matrix2,
    b: Matrix2,
    target: usize,
    n: usize,
    controls: Seq<(usize, bool)>,
)
    requires
        a[0][0] == b[0][0],
        a[0][1] == b[0][1],
        a[1][0] == b[1][0],
        a[1][1] == b[1][1],
    ensures
        one_qubit_applied(s, a, target, n, controls) == one_qubit_applied(
            s,
            b,
            target,
            n,
            controls,
        ),
{
    assert(one_qubit_applied(s, a, target, n, controls) =~= one_qubit_applied(
        s,
        b,
        target,
        n,
        controls,
    ));
}

/// Whether a measurement of `qubit` gives 1.
pub open spec fn reads_one(s: SvState, qubit: usize, n: usize) -> bool {
    real_less(drawn_unit(s.rng).0, probability_one(s.amps, qubit, n))
}

/// The amplitudes after a measurement of `qubit`.
pub open spec fn amps_measured(s: SvState, qubit: usize, n: usize) -> Seq<Complex64> {
    collapsed(s.amps, qubit, n, reads_one(s, qubit, n), probability_one(s.amps, qubit, n))
}

/// The state after an action.
pub open spec fn performed(action: Action, n: usize, s: SvState) -> SvState {
    match action {
        Action::Nothing => s,
        Action::OneQubit { matrix, target, controls } => SvState {
            amps: one_qubit_applied(s.amps, matrix, target, n, controls@),
            ..s
        },
        Action::MultiQubit { rows: matrix, qubits } => SvState {
            amps: n_qubit_applied(s.amps, matrix@, qubits@, n),
            ..s
        },
        Action::ControlledX { control, target } => SvState {
            amps: cx_applied(s.amps, n, control, target),
            ..s
        },
        Action::ControlledZ { control, target } => SvState {
            amps: cz_applied(s.amps, n, control, target),
            ..s
        },
        Action::MultiControlledX { wires: controls, target } => SvState {
            amps: mcx_applied(s.amps, n, controls@, target),
            ..s
        },
        Action::Swap { a, b } => SvState { amps: swap_applied(s.amps, n, a, b), ..s },
        Action::ControlledSwap { control, a, b } => SvState {
            amps: cswap_applied(s.amps, n, control, a, b),
            ..s
        },
        Action::Measure { qubit, cbit } => SvState {
            amps: amps_measured(s, qubit, n),
            cbits: s.cbits.insert(
                cbit,
                if reads_one(s, qubit, n) {
                    1i32
                } else {
                    0i32
                },
            ),
            rng: drawn_unit(s.rng).1,
        },
        Action::Reset { qubit } => SvState {
            amps: if reads_one(s, qubit, n) {
                one_qubit_applied(amps_measured(s, qubit, n), x_gate(), qubit, n, Seq::empty())
            } else {
                amps_measured(s, qubit, n)
            },
            cbits: s.cbits,
            rng: drawn_unit(s.rng).1,
        },
    }
}

/// The calls that an action makes.
pub open spec fn calls_of(action: Action, n: usize, s: SvState) -> CallTally {
    match action {
        Action::Nothing => no_calls(),
        Action::OneQubit { controls, .. } => if controls@.len() == 0 {
            CallTally { one_qubit: 1, ..no_calls() }
        } else {
            CallTally { n_qubit: 1, ..no_calls() }
        },
        Action::Measure { .. } => CallTally { measure: 1, ..no_calls() },
        Action::Reset { qubit } => CallTally {
            measure: 1,
            one_qubit: if reads_one(s, qubit, n) {
                1
            } else {
                0
            },
            n_qubit: 0,
        },
        _ => CallTally { n_qubit: 1, ..no_calls() },
    }
}

/// Whether an action fits a state of `n` qubits.
pub open spec fn action_fits(action: Action, n: usize) -> bool {
    match action {
        Action::Nothing => true,
        Action::OneQubit { target, controls, .. } => target < n && forall|j: int|
            0 <= j < controls@.len() ==> (#[trigger] controls@[j]).0 < usize::BITS,
        Action::MultiQubit { rows: matrix, qubits } => qubits@.len() <= 5 && qubits_fit(
            qubits@,
            n as int,
        ) && is_gate_matrix(matrix@, qubits@.len()),
        Action::ControlledX { control, target } => control < n && target < n,
        Action::ControlledZ { control, target } => control < n && target < n,
        Action::MultiControlledX { wires: controls, target } => target < n && forall|j: int|
            0 <= j < controls@.len() ==> #[trigger] controls@[j] < usize::BITS,
        Action::Swap { a, b } => a < n && b < n,
        Action::ControlledSwap { control, a, b } => control < n && a < n && b < n,
        Action::Measure { qubit, .. } => qubit < n,
        Action::Reset { qubit } => qubit < n,
    }
}

/// Performs an action.
pub fn perform_action(
    action: &Action,
    state: &mut [Complex64],
    n: usize,
    cbits: &mut HashMap<usize, i32>,
    rng: &mut ChaCha8Rng,
) -> (calls: CallTally)
    requires
        n < usize::BITS,
        dimension(n) <= old(state)@.len(),
        action_fits(*action, n),
    ensures
        ({
            let before = SvState { amps: old(state)@, cbits: old(cbits)@, rng: *old(rng) };
            let after = SvState { amps: final(state)@, cbits: final(cbits)@, rng: *final(rng) };
            &&& after == performed(*action, n, before)
            &&& calls == calls_of(*action, n, before)
            &&& final(state)@.len() == old(state)@.len()
        }),
{
    broadcast use vstd::std_specs::hash::group_hash_axioms;

    let none: CallTally = CallTally { one_qubit: 0, n_qubit: 0, measure: 0 };
    let wide: CallTally = CallTally { one_qubit: 0, n_qubit: 1, measure: 0 };
    match action {
        Action::Nothing => none,
        Action::OneQubit { matrix, target, controls } => {
            apply_one_qubit_seq(state, matrix, *target, n, controls.as_slice());
            if controls.len() == 0 {
                CallTally { one_qubit: 1, n_qubit: 0, measure: 0 }
            } else {
                wide
            }
        },
        Action::MultiQubit { rows: matrix, qubits } => {
            apply_n_qubit_seq(state, matrix.as_slice(), qubits.as_slice(), n);
            wide
        },
        Action::ControlledX { control, target } => {
            apply_cx_kernel_seq(state, *control, *target, n);
            wide
        },
        Action::ControlledZ { control, target } => {
            apply_cz_kernel_seq(state, *control, *target, n);
            wide
        },
        Action::MultiControlledX { wires: controls, target } => {
            apply_multi_controlled_x_kernel_seq(state, controls.as_slice(), *target, n);
            wide
        },
        Action::Swap { a, b } => {
            apply_swap_kernel_seq(state, *a, *b, n);
            wide
        },
        Action::ControlledSwap { control, a, b } => {
            apply_cswap_kernel_seq(state, *control, *a, *b, n);
            wide
        },
        Action::Measure { qubit, cbit } => {
            let outcome: u8 = measure_qubit_seq(state, *qubit, n, rng);
            cbits.insert(*cbit, outcome as i32);
            CallTally { one_qubit: 0, n_qubit: 0, measure: 1 }
        },
        Action::Reset { qubit } => {
            let outcome: u8 = measure_qubit_seq(state, *qubit, n, rng);
            if outcome == 1 {
                let x: Matrix2 = fixed_gate(Kind::X);
                let ghost mid = state@;
                let none_asked: Vec<(usize, bool)> = Vec::new();
                apply_one_qubit_seq(state, &x, *qubit, n, none_asked.as_slice());
                proof {
                    assert(is_fixed_gate(Kind::X, x));
                    lemma_same_entries(mid, x, x_gate(), *qubit, n, Seq::empty());
                    assert(none_asked@ =~= Seq::<(usize, bool)>::empty());
                }
                CallTally { one_qubit: 1, n_qubit: 0, measure: 1 }
            } else {
                CallTally { one_qubit: 0, n_qubit: 0, measure: 1 }
            }
        },
    }
}

/// Whether the bits that a condition reads are numbers that fit, and no more than 64.
pub open spec fn condition_fits(condition: Condition) -> bool {
    condition.creg_size <= 64 && condition.creg_base + condition.creg_size <= usize::MAX
}

/// The number that the first `count` bits of a register make: the bit at `j`, shifted by `j`.
pub open spec fn register_value(cbits: Map<usize, i32>, condition: Condition, count: int) -> u64
    decreases count,
{
    if count <= 0 {
        0
    } else {
        register_value(cbits, condition, count - 1) | ((cbit_value(
            cbits,
            (condition.creg_base + count - 1) as usize,
        ) as u64) << ((count - 1) as u64))
    }
}

/// Whether a register has the value that a condition asks for.
pub open spec fn condition_holds(cbits: Map<usize, i32>, condition: Condition) -> bool {
    register_value(cbits, condition, condition.creg_size as int) == condition.creg_value
}

/// Tests a condition.
pub fn test_condition(cbits: &HashMap<usize, i32>, condition: &Condition) -> (r: bool)
    requires
        condition_fits(*condition),
    ensures
        r == condition_holds(cbits@, *condition),
{
    let mut actual: u64 = 0;
    let mut bit: usize = 0;
    while bit < condition.creg_size
        invariant
            bit <= condition.creg_size,
            condition_fits(*condition),
            actual == register_value(cbits@, *condition, bit as int),
        decreases condition.creg_size - bit,
    {
        let value: u64 = read_cbit(cbits, condition.creg_base + bit) as u64;
        actual = actual | (value << (bit as u64));
        bit = bit + 1;
    }
    actual == condition.creg_value
}

/// Whether an instruction can be run on `n` qubits: it acts on no others, gates between nodes
/// are no wider than their matrices, and registers fit. Gates that cannot be simulated can be
/// run on any qubits, and identities act on none.
pub open spec fn is_runnable_on(inst: Instruction, n: int) -> bool
    decreases inst,
{
    match inst {
        Instruction::Gate { name, qubits, .. } => match remote_gate_of(lowercased(name@)) {
            RemoteGate::PhiPlus
            | RemoteGate::PsiMinus
            | RemoteGate::PsiPlus
            | RemoteGate::Cz
            | RemoteGate::Cx => qubits@.len() <= 2 && qubits_fit(qubits@, n),
            _ => true,
        },
        Instruction::Id { .. } | Instruction::U0 { .. } => true,
        Instruction::Conditional { condition, op } => condition_fits(condition) && is_runnable_on(
            *op,
            n,
        ),
        _ => qubits_fit(inst.touched(), n),
    }
}

/// Whether an instruction is a gate that cannot be simulated: a run ends there.
pub open spec fn is_unsupported(inst: Instruction) -> bool {
    inst matches Instruction::Gate { name, .. } && match remote_gate_of(lowercased(name@)) {
        RemoteGate::Cu1 | RemoteGate::Subcircuit | RemoteGate::Other => true,
        _ => false,
    }
}

/// Whether an instruction is a gate that cannot be simulated.
pub fn ends_run(inst: &Instruction) -> (r: bool)
    ensures
        r == is_unsupported(*inst),
{
    match inst {
        Instruction::Gate { name, .. } => match remote_gate_named(name.as_str()) {
            RemoteGate::Cu1 | RemoteGate::Subcircuit | RemoteGate::Other => true,
            _ => false,
        },
        _ => false,
    }
}

proof fn lemma_square_is_gate(rows: Seq<Vec<Complex64>>, dim: int, k: nat)
    requires
        is_square(rows, dim),
        k <= 5,
        dimension(k as usize) <= dim,
    ensures
        is_gate_matrix(rows, k),
{
    assert forall|r: int| 0 <= r < dimension(k as usize) implies dimension(k as usize) <= (
    #[trigger] rows[r])@.len() by {
        assert(rows[r]@.len() == dim);
    }
}

/// The action of an instruction that can be run fits the state.
#[verifier::rlimit(60)]
proof fn lemma_action_fits(
    inst: Instruction,
    n: usize,
    config: KernelConfig,
    links: LinkGates,
    names_subcircuits: bool,
    r: Result<Action, GateError>,
)
    requires
        n < usize::BITS,
        links.wf(),
        is_runnable_on(inst, n as int),
        is_action_of(inst, n, config, links, names_subcircuits, r),
        r is Ok,
    ensures
        action_fits(r->Ok_0, n),
{
    let qubits = inst.touched();
    lemma_small_dimensions();
    if qubits.len() > 0 && qubits_fit(qubits, n as int) {
        assert(qubits[0] < n);
        assert(qubits[qubits.len() - 1] < n);
    }
    if qubits.len() > 1 && qubits_fit(qubits, n as int) {
        assert(qubits[1] < n);
    }
    if qubits.len() > 2 && qubits_fit(qubits, n as int) {
        assert(qubits[2] < n);
    }
    match r->Ok_0 {
        Action::OneQubit { controls, .. } => {
            if controls@.len() > 0 {
                assert forall|j: int| 0 <= j < controls@.len() implies (#[trigger] controls@[j]).0
                    < usize::BITS by {
                    assert(controls@[j].0 == qubits[j]);
                }
            }
        },
        Action::MultiControlledX { wires: controls, .. } => {
            assert forall|j: int| 0 <= j < controls@.len() implies #[trigger] controls@[j]
                < usize::BITS by {
                assert(controls@[j] == qubits[j]);
            }
        },
        Action::MultiQubit { rows: matrix, qubits: on } => {
            assert(on@ == qubits);
            let k = qubits.len();
            match inst {
                Instruction::Rccx { .. } => {
                    assert(is_square(matrix@, 8)) by {
                        assert forall|i: int| 0 <= i < 8 implies (#[trigger] matrix@[i])@.len()
                            == 8 by {
                            assert(links.rccx@[i]@.len() == 8);
                        }
                    }
                    lemma_square_is_gate(matrix@, 8, k);
                },
                Instruction::Rc3x { .. } => {
                    assert(is_square(matrix@, 16)) by {
                        assert forall|i: int| 0 <= i < 16 implies (#[trigger] matrix@[i])@.len()
                            == 16 by {
                            assert(links.rc3x@[i]@.len() == 16);
                        }
                    }
                    lemma_square_is_gate(matrix@, 16, k);
                },
                Instruction::Gate { .. } => {
                    lemma_square_is_gate(matrix@, 4, k);
                },
                Instruction::Swap { .. } | Instruction::Rxx { .. } | Instruction::Rzz { .. } => {
                    lemma_square_is_gate(matrix@, 4, k);
                },
                Instruction::Cswap { .. } => {
                    lemma_square_is_gate(matrix@, 8, k);
                },
                _ => {
                    lemma_square_is_gate(matrix@, 2 * dimension((k - 1) as usize), k);
                },
            }
        },
        _ => {},
    }
}

/// Whether running an instruction leads from one state to another, with a result. A condition
/// that does not hold does nothing; an instruction that cannot be simulated changes nothing.
pub open spec fn steps_to(
    inst: Instruction,
    n: usize,
    config: KernelConfig,
    links: LinkGates,
    names_subcircuits: bool,
    before: SvState,
    after: SvState,
    result: Result<CallTally, GateError>,
) -> bool
    decreases inst,
{
    match inst {
        Instruction::Conditional { condition, op } => if condition_holds(before.cbits, condition) {
            steps_to(*op, n, config, links, names_subcircuits, before, after, result)
        } else {
            after == before && result == Ok::<CallTally, GateError>(no_calls())
        },
        _ => exists|action: Result<Action, GateError>| #[trigger]
            is_action_of(inst, n, config, links, names_subcircuits, action) && match action {
                Ok(act) => after == performed(act, n, before) && result
                    == Ok::<CallTally, GateError>(calls_of(act, n, before)),
                Err(e) => after == before && result == Err::<CallTally, GateError>(e),
            },
    }
}

/// Runs an instruction.
fn run_step(
    state: &mut [Complex64],
    inst: &Instruction,
    n: usize,
    cbits: &mut HashMap<usize, i32>,
    rng: &mut ChaCha8Rng,
    config: KernelConfig,
    links: &LinkGates,
    names_subcircuits: bool,
) -> (r: Result<CallTally, GateError>)
    requires
        n < usize::BITS,
        dimension(n) <= old(state)@.len(),
        links.wf(),
        is_runnable_on(*inst, n as int),
    ensures
        final(state)@.len() == old(state)@.len(),
        steps_to(
            *inst,
            n,
            config,
            *links,
            names_subcircuits,
            (SvState { amps: old(state)@, cbits: old(cbits)@, rng: *old(rng) }),
            (SvState { amps: final(state)@, cbits: final(cbits)@, rng: *final(rng) }),
            r,
        ),
    decreases inst,
{
    match inst {
        Instruction::Conditional { condition, op } => {
            if test_condition(cbits, condition) {
                run_step(state, op, n, cbits, rng, config, links, names_subcircuits)
            } else {
                Ok(CallTally { one_qubit: 0, n_qubit: 0, measure: 0 })
            }
        },
        _ => {
            let action: Result<Action, GateError> = instruction_action(
                inst,
                n,
                config,
                links,
                names_subcircuits,
            );
            assert(is_action_of(*inst, n, config, *links, names_subcircuits, action));
            match action {
                Ok(act) => {
                    proof {
                        lemma_action_fits(
                            *inst,
                            n,
                            config,
                            *links,
                            names_subcircuits,
                            Ok::<Action, GateError>(act),
                        );
                    }
                    let calls: CallTally = perform_action(&act, state, n, cbits, rng);
                    Ok(calls)
                },
                Err(e) => Err(e),
            }
        },
    }
}

/// Runs an instruction of a single simulation, and counts the calls made. Opaque subcircuits
/// are unsupported gates like others.
pub fn run_instruction(
    state: &mut [Complex64],
    inst: &Instruction,
    n: usize,
    cbits: &mut HashMap<usize, i32>,
    rng: &mut ChaCha8Rng,
    config: KernelConfig,
    links: &LinkGates,
) -> (r: Result<CallTally, GateError>)
    requires
        n < usize::BITS,
        dimension(n) <= old(state)@.len(),
        links.wf(),
        is_runnable_on(*inst, n as int),
    ensures
        final(state)@.len() == old(state)@.len(),
        steps_to(
            *inst,
            n,
            config,
            *links,
            false,
            (SvState { amps: old(state)@, cbits: old(cbits)@, rng: *old(rng) }),
            (SvState { amps: final(state)@, cbits: final(cbits)@, rng: *final(rng) }),
            r,
        ),
{
    run_step(state, inst, n, cbits, rng, config, links, false)
}

/// Runs an instruction of a shot. Opaque subcircuits have an error of their own.
pub fn run_instruction_par(
    state: &mut [Complex64],
    inst: &Instruction,
    n: usize,
    cbits: &mut HashMap<usize, i32>,
    rng: &mut ChaCha8Rng,
    config: KernelConfig,
    links: &LinkGates,
) -> (r: Result<(), GateError>)
    requires
        n < usize::BITS,
        dimension(n) <= old(state)@.len(),
        links.wf(),
        is_runnable_on(*inst, n as int),
    ensures
        final(state)@.len() == old(state)@.len(),
        shot_steps_to(
            *inst,
            n,
            config,
            *links,
            (SvState { amps: old(state)@, cbits: old(cbits)@, rng: *old(rng) }),
            (SvState { amps: final(state)@, cbits: final(cbits)@, rng: *final(rng) }),
            r,
        ),
{
    let ghost before = SvState { amps: state@, cbits: cbits@, rng: *rng };
    let result: Result<CallTally, GateError> = run_step(
        state,
        inst,
        n,
        cbits,
        rng,
        config,
        links,
        true,
    );
    let ghost after = SvState { amps: state@, cbits: cbits@, rng: *rng };
    assert(steps_to(*inst, n, config, *links, true, before, after, result));
    match result {
        Ok(_) => Ok(()),
        Err(e) => Err(e),
    }
}

/// Whether running an instruction of a shot leads from one state to another, with a result.
pub open spec fn shot_steps_to(
    inst: Instruction,
    n: usize,
    config: KernelConfig,
    links: LinkGates,
    before: SvState,
    after: SvState,
    result: Result<(), GateError>,
) -> bool {
    exists|calls: Result<CallTally, GateError>| #[trigger]
        steps_to(inst, n, config, links, true, before, after, calls) && match calls {
            Ok(_) => result is Ok,
            Err(e) => result == Err::<(), GateError>(e),
        }
}

/// Whether an instruction uses one of the specialised kernels where they are enabled.
pub open spec fn uses_kernel(inst: Instruction) -> bool {
    match inst {
        Instruction::Cx { .. }
        | Instruction::Cz { .. }
        | Instruction::Cy { .. }
        | Instruction::Ch { .. }
        | Instruction::Swap { .. }
        | Instruction::Csx { .. }
        | Instruction::Crx { .. }
        | Instruction::Cry { .. }
        | Instruction::Crz { .. }
        | Instruction::Cu1 { .. }
        | Instruction::Cp { .. }
        | Instruction::Cu3 { .. }
        | Instruction::Cu { .. }
        | Instruction::Ccx { .. }
        | Instruction::Cswap { .. }
        | Instruction::C3x { .. }
        | Instruction::C3sqrtx { .. }
        | Instruction::C4x { .. } => true,
        _ => false,
    }
}

/// Whether an instruction uses one of the specialised kernels where they are enabled.
pub fn instruction_uses_statevector_two_qubit_kernel(inst: &Instruction) -> (r: bool)
    ensures
        r == uses_kernel(*inst),
{
    match inst {
        Instruction::Cx { .. }
        | Instruction::Cz { .. }
        | Instruction::Cy { .. }
        | Instruction::Ch { .. }
        | Instruction::Swap { .. }
        | Instruction::Csx { .. }
        | Instruction::Crx { .. }
        | Instruction::Cry { .. }
        | Instruction::Crz { .. }
        | Instruction::Cu1 { .. }
        | Instruction::Cp { .. }
        | Instruction::Cu3 { .. }
        | Instruction::Cu { .. }
        | Instruction::Ccx { .. }
        | Instruction::Cswap { .. }
        | Instruction::C3x { .. }
        | Instruction::C3sqrtx { .. }
        | Instruction::C4x { .. } => true,
        _ => false,
    }
}

/// Whether a gate has several controls, or a control besides two targets.
pub open spec fn has_several_controls(inst: Instruction) -> bool {
    inst is Ccx || inst is Cswap || inst is C3x || inst is C3sqrtx || inst is C4x
}

/// The kernels are an optimisation of the gates that use them: without them, and on states
/// too small for those with several controls, the action of such a gate is its whole matrix.
pub proof fn law_kernels_replace_matrices(
    inst: Instruction,
    n: usize,
    config: KernelConfig,
    links: LinkGates,
    r: Result<Action, GateError>,
)
    requires
        uses_kernel(inst),
        !config.two_qubit_kernels || (has_several_controls(inst) && n
            < config.multi_control_min_qubits),
        is_action_of(inst, n, config, links, true, r),
    ensures
        r is Ok,
        r->Ok_0 is MultiQubit,
        r->Ok_0->MultiQubit_qubits@ == inst.touched(),
{
}

} // verus!
