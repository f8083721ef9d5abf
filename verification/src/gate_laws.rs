//! What the instructions do to a state vector, in terms of each other.

use num_complex::Complex64;
use vstd::prelude::*;

use crate::bits::{bit_mask, bit_set, dimension};
use crate::complex::{
    complex_add, complex_join, complex_mul, complex_neg, complex_of, complex_one, complex_sub,
    complex_unscale, complex_zero, may_be_cis, real_div, real_imag, real_less, real_max,
    real_sqrt, tiny,
};
use crate::config::KernelConfig;
use crate::controlled_laws::{
    all_plain, is_reading, law_controlled_matrix_acts_as_guarded_gate, law_controls_guard_the_gate,
    law_cz_kernel_acts_as_guarded_z, law_swap_matrix_exchanges_qubits,
    law_x_gate_exchanges_amplitudes, law_x_kernels_act_as_guarded_x, set_wires,
};
use crate::engine::{all_set, one_qubit_applied, Matrix2};
use crate::gate_error::GateError;
use crate::gate_matrix::{
    half_of, is_fixed_gate, is_matrix_of, is_rx, is_ry, is_rz, is_u3, is_u3_of, pi_value,
    real_neg, single_gate_qubit,
};
use crate::gates::{
    controlled_entry, is_controlled, is_phased, is_rxx, is_rxx_of, is_rzz, is_rzz_of,
    lemma_small_dimensions, LinkGates,
};
use crate::instruction::{Instruction, Kind};
use crate::measure::{marginal, marginal_weight, weight_one};
use crate::mps_kernel::Matrix4;
use crate::product_laws::lemma_applied_to_one_qubit;
use crate::random::drawn_unit;
use crate::statevector::{
    calls_of, is_action_of, is_runnable_on, is_target_matrix, lemma_same_entries, performed,
    steps_to, x_gate, Action, CallTally, SvState,
};
use crate::wide_gate::{gate_index, qubits_fit};

verus! {

/// The controls of a gate that applies a one-qubit gate to its target.
pub open spec fn named_controls(inst: Instruction) -> Seq<usize> {
    match inst {
        Instruction::Cx { control, .. }
        | Instruction::Cz { control, .. }
        | Instruction::Cy { control, .. }
        | Instruction::Ch { control, .. }
        | Instruction::Csx { control, .. }
        | Instruction::Crx { control, .. }
        | Instruction::Cry { control, .. }
        | Instruction::Crz { control, .. }
        | Instruction::Cu1 { control, .. }
        | Instruction::Cp { control, .. }
        | Instruction::Cu3 { control, .. }
        | Instruction::Cu { control, .. } => seq![control],
        Instruction::Ccx { control1, control2, .. } => seq![control1, control2],
        Instruction::C3x { control1, control2, control3, .. }
        | Instruction::C3sqrtx { control1, control2, control3, .. } => seq![
            control1,
            control2,
            control3,
        ],
        Instruction::C4x { control1, control2, control3, control4, .. } => seq![
            control1,
            control2,
            control3,
            control4,
        ],
        _ => Seq::empty(),
    }
}

/// Whether `plain` is the one-qubit gate that a gate applies to its target where all of its
/// controls are set: that of the same name, with the same angles.
pub open spec fn is_plain_form(inst: Instruction, plain: Instruction) -> bool {
    match (inst, plain) {
        (Instruction::Cx { target, .. }, Instruction::X { qubit })
        | (Instruction::Cy { target, .. }, Instruction::Y { qubit })
        | (Instruction::Cz { target, .. }, Instruction::Z { qubit })
        | (Instruction::Ch { target, .. }, Instruction::H { qubit })
        | (Instruction::Csx { target, .. }, Instruction::Sx { qubit })
        | (Instruction::Ccx { target, .. }, Instruction::X { qubit })
        | (Instruction::C3x { target, .. }, Instruction::X { qubit })
        | (Instruction::C4x { target, .. }, Instruction::X { qubit })
        | (Instruction::C3sqrtx { target, .. }, Instruction::Sx { qubit }) => qubit == target,
        (Instruction::Crx { target, theta, .. }, Instruction::Rx { qubit, theta: angle })
        | (Instruction::Cry { target, theta, .. }, Instruction::Ry { qubit, theta: angle }) => qubit
            == target && theta == angle,
        (Instruction::Crz { target, lam, .. }, Instruction::Rz { qubit, phi: angle })
        | (Instruction::Cu1 { target, lam, .. }, Instruction::U1 { qubit, lam: angle })
        | (Instruction::Cp { target, lam, .. }, Instruction::P { qubit, lam: angle }) => qubit
            == target && lam == angle,
        (
            Instruction::Cu3 { target, theta, phi, lam, .. },
            Instruction::U3 { qubit, theta: a, phi: b, lam: c },
        ) => qubit == target && theta == a && phi == b && lam == c,
        _ => false,
    }
}

/// Whether an instruction applies a one-qubit gate to its target where its controls are set.
pub open spec fn has_controls(inst: Instruction) -> bool {
    named_controls(inst).len() > 0
}

/// The target of a gate with controls.
pub open spec fn named_target(inst: Instruction) -> usize {
    match inst {
        Instruction::Cx { target, .. }
        | Instruction::Cz { target, .. }
        | Instruction::Cy { target, .. }
        | Instruction::Ch { target, .. }
        | Instruction::Csx { target, .. }
        | Instruction::Crx { target, .. }
        | Instruction::Cry { target, .. }
        | Instruction::Crz { target, .. }
        | Instruction::Cu1 { target, .. }
        | Instruction::Cp { target, .. }
        | Instruction::Cu3 { target, .. }
        | Instruction::Cu { target, .. }
        | Instruction::Ccx { target, .. }
        | Instruction::C3x { target, .. }
        | Instruction::C3sqrtx { target, .. }
        | Instruction::C4x { target, .. } => target,
        _ => 0,
    }
}

/// Whether a state reads as another one after a one-qubit gate on `target` that some controls
/// guard.
pub open spec fn is_guarded<V>(
    val: spec_fn(Complex64) -> V,
    before: Seq<Complex64>,
    u: Matrix2,
    controls: Seq<usize>,
    target: usize,
    n: usize,
    after: Seq<Complex64>,
) -> bool {
    &&& after.len() == before.len()
    &&& forall|k: usize|
        #![trigger after[k as int]]
        k < dimension(n) ==> val(after[k as int]) == val(
            if all_set(k, controls) {
                one_qubit_applied(before, u, target, n, Seq::empty())[k as int]
            } else {
                before[k as int]
            },
        )
}

#[verifier::rlimit(40)]
proof fn lemma_guarded_action<V>(
    val: spec_fn(Complex64) -> V,
    plus: spec_fn(V, V) -> V,
    inst: Instruction,
    n: usize,
    config: KernelConfig,
    links: LinkGates,
    names: bool,
    act: Action,
    before: SvState,
) -> (u: Matrix2)
    requires
        is_reading(val, plus),
        all_plain(val, before.amps),
        has_controls(inst),
        !named_controls(inst).contains(named_target(inst)),
        n < usize::BITS,
        dimension(n) <= before.amps.len(),
        is_runnable_on(inst, n as int),
        is_action_of(inst, n, config, links, names, Ok::<Action, GateError>(act)),
    ensures
        is_target_matrix(inst, u),
        is_guarded(
            val,
            before.amps,
            u,
            named_controls(inst),
            named_target(inst),
            n,
            performed(act, n, before).amps,
        ),
        performed(act, n, before).cbits == before.cbits,
        performed(act, n, before).rng == before.rng,
{
    let controls = named_controls(inst);
    let target = named_target(inst);
    let s = before.amps;
    let after = performed(act, n, before).amps;
    let touched = inst.touched();
    assert(touched.drop_last() =~= controls);
    assert(touched =~= controls.push(target));
    assert(qubits_fit(touched, n as int));
    assert(touched[controls.len() as int] == target);
    assert forall|j: int| 0 <= j < controls.len() implies #[trigger] controls[j] < n by {
        assert(touched[j] < n);
    }
    assert(qubits_fit(controls, usize::BITS as int));
    let x: Matrix2 = choose|x: Matrix2| is_fixed_gate(Kind::X, x);
    match act {
        Action::OneQubit { matrix, target: on, controls: wires } => {
            assert(wires@ =~= set_wires(controls));
            assert forall|k: usize| #![trigger after[k as int]] k < dimension(n) implies val(
                after[k as int],
            ) == val(
                if all_set(k, controls) {
                    one_qubit_applied(s, matrix, target, n, Seq::empty())[k as int]
                } else {
                    s[k as int]
                },
            ) by {
                law_controls_guard_the_gate(s, matrix, target, n, controls, k);
            }
            matrix
        },
        Action::MultiQubit { rows, qubits } => {
            let u = choose|u: Matrix2| #[trigger]
                is_target_matrix(inst, u) && is_controlled(rows@, (touched.len() - 1) as nat, u);
            assert forall|k: usize| #![trigger after[k as int]] k < dimension(n) implies val(
                after[k as int],
            ) == val(
                if all_set(k, controls) {
                    one_qubit_applied(s, u, target, n, Seq::empty())[k as int]
                } else {
                    s[k as int]
                },
            ) by {
                law_controls_guard_the_gate(s, u, target, n, controls, k);
                law_controlled_matrix_acts_as_guarded_gate(
                    val,
                    plus,
                    s,
                    rows@,
                    u,
                    controls,
                    target,
                    n,
                    k,
                );
            }
            u
        },
        Action::ControlledX { .. } | Action::MultiControlledX { .. } => {
            lemma_fixed_gate_exists(Kind::X);
            assert forall|k: usize| #![trigger after[k as int]] k < dimension(n) implies val(
                after[k as int],
            ) == val(
                if all_set(k, controls) {
                    one_qubit_applied(s, x, target, n, Seq::empty())[k as int]
                } else {
                    s[k as int]
                },
            ) by {
                law_controls_guard_the_gate(s, x, target, n, controls, k);
                law_x_kernels_act_as_guarded_x(val, plus, s, x, controls, target, n, k);
            }
            x
        },
        _ => {
            let z: Matrix2 = choose|z: Matrix2| is_fixed_gate(Kind::Z, z);
            lemma_fixed_gate_exists(Kind::Z);
            assert forall|k: usize| #![trigger after[k as int]] k < dimension(n) implies val(
                after[k as int],
            ) == val(
                if all_set(k, controls) {
                    one_qubit_applied(s, z, target, n, Seq::empty())[k as int]
                } else {
                    s[k as int]
                },
            ) by {
                law_controls_guard_the_gate(s, z, target, n, controls, k);
                law_cz_kernel_acts_as_guarded_z(val, plus, s, z, controls[0], target, n, k);
                assert(seq![controls[0]] =~= controls);
            }
            z
        },
    }
}

/// There is a matrix for the gates X and Z.
proof fn lemma_fixed_gate_exists(kind: Kind)
    requires
        kind is X || kind is Z,
    ensures
        exists|m: Matrix2| is_fixed_gate(kind, m),
{
    let (zero, one, minus) = (complex_zero(), complex_one(), complex_of(-1, 0));
    if kind is X {
        let m: Matrix2 = [[zero, one], [one, zero]];
        assert(is_fixed_gate(kind, m));
    } else {
        let m: Matrix2 = [[one, zero], [zero, minus]];
        assert(is_fixed_gate(kind, m));
    }
}

/// A gate with controls does to the amplitudes at which all of its controls are set what the
/// one-qubit gate of the same name does to them, and nothing to the others, with and without
/// kernels.
pub proof fn law_controlled_gates_guard_the_plain_gate<V>(
    val: spec_fn(Complex64) -> V,
    plus: spec_fn(V, V) -> V,
    inst: Instruction,
    plain: Instruction,
    n: usize,
    config: KernelConfig,
    links: LinkGates,
    names: bool,
    before: SvState,
    after: SvState,
    calls: CallTally,
) -> (m: Matrix2)
    requires
        is_reading(val, plus),
        all_plain(val, before.amps),
        is_plain_form(inst, plain),
        !named_controls(inst).contains(named_target(inst)),
        n < usize::BITS,
        dimension(n) <= before.amps.len(),
        is_runnable_on(inst, n as int),
        steps_to(inst, n, config, links, names, before, after, Ok::<CallTally, GateError>(calls)),
    ensures
        is_matrix_of(plain, m),
        is_guarded(
            val,
            before.amps,
            m,
            named_controls(inst),
            named_target(inst),
            n,
            after.amps,
        ),
        after.cbits == before.cbits,
        after.rng == before.rng,
{
    let action = choose|action: Result<Action, GateError>| #[trigger]
        is_action_of(inst, n, config, links, names, action) && match action {
            Ok(act) => after == performed(act, n, before) && Ok::<CallTally, GateError>(calls)
                == Ok::<CallTally, GateError>(calls_of(act, n, before)),
            Err(e) => after == before && Ok::<CallTally, GateError>(calls) == Err::<
                CallTally,
                GateError,
            >(e),
        };
    lemma_guarded_action(val, plus, inst, n, config, links, names, action->Ok_0, before)
}

/// A one-qubit gate applies its matrix to its qubit, on every pair of amplitudes that differ in
/// that qubit, or does nothing where it is an identity.
pub proof fn law_one_qubit_gates_apply_their_matrix(
    inst: Instruction,
    n: usize,
    config: KernelConfig,
    links: LinkGates,
    names: bool,
    before: SvState,
    after: SvState,
    calls: CallTally,
) -> (m: Matrix2)
    requires
        single_gate_qubit(inst) is Some,
        !(inst is Id) && !(inst is U0),
        steps_to(inst, n, config, links, names, before, after, Ok::<CallTally, GateError>(calls)),
    ensures
        is_matrix_of(inst, m),
        after.amps == one_qubit_applied(
            before.amps,
            m,
            single_gate_qubit(inst)->0,
            n,
            Seq::empty(),
        ),
        after.cbits == before.cbits,
        after.rng == before.rng,
{
    let action = choose|action: Result<Action, GateError>| #[trigger]
        is_action_of(inst, n, config, links, names, action) && match action {
            Ok(act) => after == performed(act, n, before) && Ok::<CallTally, GateError>(calls)
                == Ok::<CallTally, GateError>(calls_of(act, n, before)),
            Err(e) => after == before && Ok::<CallTally, GateError>(calls) == Err::<
                CallTally,
                GateError,
            >(e),
        };
    match action->Ok_0 {
        Action::OneQubit { matrix, controls, .. } => {
            assert(controls@ =~= Seq::<(usize, bool)>::empty());
            matrix
        },
        _ => {
            assert(false);
            [[complex_zero(), complex_zero()], [complex_zero(), complex_zero()]]
        },
    }
}

/// Identities, barriers and classical statements change nothing.
pub proof fn law_identities_change_nothing(
    inst: Instruction,
    n: usize,
    config: KernelConfig,
    links: LinkGates,
    names: bool,
    before: SvState,
    after: SvState,
    result: Result<CallTally, GateError>,
)
    requires
        inst is Id || inst is U0 || inst is Barrier || inst is Classical,
        steps_to(inst, n, config, links, names, before, after, result),
    ensures
        after == before,
        result is Ok,
{
}

/// Whether a one-qubit gate has no angles, so that its matrix is fixed.
pub open spec fn is_fixed_form(plain: Instruction) -> bool {
    plain is X || plain is Y || plain is Z || plain is H || plain is Sx
}

/// Running a gate with controls, and running the one-qubit gate of the same name, from the same
/// state: the results agree on the amplitudes at which all controls are set, and the first one
/// has not changed the others.
pub proof fn law_controlled_and_plain_runs_agree<V>(
    val: spec_fn(Complex64) -> V,
    plus: spec_fn(V, V) -> V,
    inst: Instruction,
    plain: Instruction,
    n: usize,
    config: KernelConfig,
    links: LinkGates,
    names: bool,
    before: SvState,
    guarded: SvState,
    calls: CallTally,
    free: SvState,
    free_calls: CallTally,
    k: usize,
)
    requires
        is_reading(val, plus),
        all_plain(val, before.amps),
        is_plain_form(inst, plain),
        is_fixed_form(plain),
        !named_controls(inst).contains(named_target(inst)),
        n < usize::BITS,
        k < dimension(n) <= before.amps.len(),
        is_runnable_on(inst, n as int),
        steps_to(inst, n, config, links, names, before, guarded, Ok::<CallTally, GateError>(calls)),
        steps_to(
            plain,
            n,
            config,
            links,
            names,
            before,
            free,
            Ok::<CallTally, GateError>(free_calls),
        ),
    ensures
        val(guarded.amps[k as int]) == val(
            if all_set(k, named_controls(inst)) {
                free.amps[k as int]
            } else {
                before.amps[k as int]
            },
        ),
{
    let m = law_controlled_gates_guard_the_plain_gate(
        val,
        plus,
        inst,
        plain,
        n,
        config,
        links,
        names,
        before,
        guarded,
        calls,
    );
    let own = law_one_qubit_gates_apply_their_matrix(
        plain,
        n,
        config,
        links,
        names,
        before,
        free,
        free_calls,
    );
    lemma_same_entries(before.amps, m, own, named_target(inst), n, Seq::empty());
    let after = guarded.amps;
    assert(val(after[k as int]) == val(
        if all_set(k, named_controls(inst)) {
            one_qubit_applied(before.amps, m, named_target(inst), n, Seq::empty())[k as int]
        } else {
            before.amps[k as int]
        },
    ));
}

/// A NOT with controls exchanges the amplitudes that differ in its target where all controls are
/// set, whichever of the qubits has the larger number.
pub proof fn law_controlled_not_flips_its_target<V>(
    val: spec_fn(Complex64) -> V,
    plus: spec_fn(V, V) -> V,
    inst: Instruction,
    n: usize,
    config: KernelConfig,
    links: LinkGates,
    names: bool,
    before: SvState,
    after: SvState,
    calls: CallTally,
    k: usize,
)
    requires
        is_reading(val, plus),
        all_plain(val, before.amps),
        inst is Cx || inst is Ccx || inst is C3x || inst is C4x,
        !named_controls(inst).contains(named_target(inst)),
        n < usize::BITS,
        k < dimension(n) <= before.amps.len(),
        is_runnable_on(inst, n as int),
        steps_to(inst, n, config, links, names, before, after, Ok::<CallTally, GateError>(calls)),
    ensures
        val(after.amps[k as int]) == val(
            before.amps[if all_set(k, named_controls(inst)) {
                k ^ bit_mask(named_target(inst))
            } else {
                k
            } as int],
        ),
{
    let target = named_target(inst);
    let m = law_controlled_gates_guard_the_plain_gate(
        val,
        plus,
        inst,
        Instruction::X { qubit: target },
        n,
        config,
        links,
        names,
        before,
        after,
        calls,
    );
    assert(inst.touched().last() == target);
    assert(inst.touched()[inst.touched().len() - 1] < n);
    law_x_gate_exchanges_amplitudes(val, plus, before.amps, m, target, n, k);
    let amps = after.amps;
    assert(val(amps[k as int]) == val(
        if all_set(k, named_controls(inst)) {
            one_qubit_applied(before.amps, m, target, n, Seq::empty())[k as int]
        } else {
            before.amps[k as int]
        },
    ));
}

/// The general controlled gate guards the general rotation with the same angles, times a phase of
/// its own.
pub proof fn law_general_controlled_gate_has_a_phase<V>(
    val: spec_fn(Complex64) -> V,
    plus: spec_fn(V, V) -> V,
    control: usize,
    target: usize,
    theta: Complex64,
    phi: Complex64,
    lam: Complex64,
    gamma: Complex64,
    n: usize,
    config: KernelConfig,
    links: LinkGates,
    names: bool,
    before: SvState,
    after: SvState,
    calls: CallTally,
) -> (r: (Matrix2, Complex64, Matrix2))
    requires
        is_reading(val, plus),
        all_plain(val, before.amps),
        control != target,
        control < n,
        target < n,
        n < usize::BITS,
        dimension(n) <= before.amps.len(),
        steps_to(
            Instruction::Cu { control, target, theta, phi, lam, gamma },
            n,
            config,
            links,
            names,
            before,
            after,
            Ok::<CallTally, GateError>(calls),
        ),
    ensures
        is_matrix_of(Instruction::U3 { qubit: target, theta, phi, lam }, r.2),
        may_be_cis(gamma, r.1),
        forall|i: int, j: int|
            0 <= i < 2 && 0 <= j < 2 ==> #[trigger] r.0[i][j] == complex_mul(r.1, r.2[i][j]),
        is_guarded(val, before.amps, r.0, seq![control], target, n, after.amps),
{
    let inst = Instruction::Cu { control, target, theta, phi, lam, gamma };
    let action = choose|action: Result<Action, GateError>| #[trigger]
        is_action_of(inst, n, config, links, names, action) && match action {
            Ok(act) => after == performed(act, n, before) && Ok::<CallTally, GateError>(calls)
                == Ok::<CallTally, GateError>(calls_of(act, n, before)),
            Err(e) => after == before && Ok::<CallTally, GateError>(calls) == Err::<
                CallTally,
                GateError,
            >(e),
        };
    assert(inst.touched() =~= seq![control, target]);
    assert(!seq![control].contains(target));
    let u = lemma_guarded_action(
        val,
        plus,
        inst,
        n,
        config,
        links,
        names,
        action->Ok_0,
        before,
    );
    let (phase, inner) = choose|phase: Complex64, inner: Matrix2| #[trigger]
        is_phased(u, phase, inner) && may_be_cis(gamma, phase)
            && is_u3_of(inner, theta, phi, lam);
    (u, phase, inner)
}

/// The index with the values of two qubits exchanged.
pub open spec fn exchanged(k: usize, a: usize, b: usize) -> usize {
    if bit_set(k, a) != bit_set(k, b) {
        k ^ (bit_mask(a) | bit_mask(b))
    } else {
        k
    }
}

/// A SWAP exchanges the values of its two qubits; one with a control does so where the control
/// is set.
pub proof fn law_swaps_exchange_their_qubits<V>(
    val: spec_fn(Complex64) -> V,
    plus: spec_fn(V, V) -> V,
    inst: Instruction,
    n: usize,
    config: KernelConfig,
    links: LinkGates,
    names: bool,
    before: SvState,
    after: SvState,
    calls: CallTally,
    k: usize,
)
    requires
        is_reading(val, plus),
        all_plain(val, before.amps),
        n < usize::BITS,
        k < dimension(n) <= before.amps.len(),
        is_runnable_on(inst, n as int),
        match inst {
            Instruction::Swap { a, b } => a != b,
            Instruction::Cswap { control, target1, target2 } => control != target1 && control
                != target2 && target1 != target2,
            _ => false,
        },
        steps_to(inst, n, config, links, names, before, after, Ok::<CallTally, GateError>(calls)),
    ensures
        val(after.amps[k as int]) == val(
            before.amps[match inst {
                Instruction::Swap { a, b } => exchanged(k, a, b),
                Instruction::Cswap { control, target1, target2 } => if bit_set(k, control) {
                    exchanged(k, target1, target2)
                } else {
                    k
                },
                _ => k,
            } as int],
        ),
{
    let action = choose|action: Result<Action, GateError>| #[trigger]
        is_action_of(inst, n, config, links, names, action) && match action {
            Ok(act) => after == performed(act, n, before) && Ok::<CallTally, GateError>(calls)
                == Ok::<CallTally, GateError>(calls_of(act, n, before)),
            Err(e) => after == before && Ok::<CallTally, GateError>(calls) == Err::<
                CallTally,
                GateError,
            >(e),
        };
    let touched = inst.touched();
    match inst {
        Instruction::Swap { a, b } => {
            assert(touched[0] < n && touched[1] < n);
            match action->Ok_0 {
                Action::MultiQubit { rows, .. } => {
                    let none = Seq::<usize>::empty();
                    law_swap_matrix_exchanges_qubits(
                        val,
                        plus,
                        before.amps,
                        rows@,
                        none,
                        a,
                        b,
                        n,
                        k,
                    );
                    assert(touched =~= seq![a, b]);
                },
                _ => {},
            }
        },
        Instruction::Cswap { control, target1, target2 } => {
            assert(touched[0] < n && touched[1] < n && touched[2] < n);
            match action->Ok_0 {
                Action::MultiQubit { rows, .. } => {
                    let controls = seq![control];
                    assert(!controls.contains(target1) && !controls.contains(target2));
                    assert(qubits_fit(controls, n as int));
                    law_swap_matrix_exchanges_qubits(
                        val,
                        plus,
                        before.amps,
                        rows@,
                        controls,
                        target1,
                        target2,
                        n,
                        k,
                    );
                    assert(touched =~= seq![controls[0], target1, target2]);
                },
                _ => {},
            }
        },
        _ => {},
    }
}

/// The part of a rotation that comes from a Pauli gate: minus the imaginary unit times the sine,
/// times the entry of that gate, which is 0, 1, the imaginary unit or its opposite.
pub open spec fn turned_part(sine: Complex64, entry: Complex64) -> Complex64 {
    if entry == complex_one() {
        complex_join(complex_zero(), complex_neg(sine))
    } else if entry == complex_of(0, -1) {
        real_neg(sine)
    } else {
        sine
    }
}

/// The rotations about the first two axes are the cosine of half the angle on the diagonal, and
/// elsewhere minus the imaginary unit times its sine times the X or the Y gate.
pub proof fn law_rotations_turn_about_their_pauli_gates(
    inst: Instruction,
    pauli: Instruction,
    m: Matrix2,
    p: Matrix2,
) -> (turn: Complex64)
    requires
        inst is Rx && pauli is X || inst is Ry && pauli is Y,
        is_matrix_of(inst, m),
        is_matrix_of(pauli, p),
        complex_of(0, -1) != complex_one(),
        complex_of(0, 1) != complex_one(),
        complex_of(0, -1) != complex_of(0, 1),
    ensures
        may_be_cis(
            half_of(
                match inst {
                    Instruction::Rx { theta, .. } | Instruction::Ry { theta, .. } => theta,
                    _ => complex_zero(),
                },
            ),
            turn,
        ),
        m[0][0] == complex_join(turn, complex_zero()),
        m[1][1] == complex_join(turn, complex_zero()),
        m[0][1] == turned_part(real_imag(turn), p[0][1]),
        m[1][0] == turned_part(real_imag(turn), p[1][0]),
{
    match inst {
        Instruction::Rx { theta, .. } => choose|turn: Complex64| #[trigger]
            is_rx(m, turn) && may_be_cis(half_of(theta), turn),
        Instruction::Ry { theta, .. } => choose|turn: Complex64| #[trigger]
            is_ry(m, turn) && may_be_cis(half_of(theta), turn),
        _ => complex_zero(),
    }
}

/// A rotation about the third axis turns by minus half the angle where the Z gate has 1 on its
/// diagonal, and by plus half the angle where it has minus 1. A rotation of two qubits about
/// their third axes does so by the product of the two entries, and one about their first axes
/// flips both qubits as two X gates do.
pub proof fn law_rotations_follow_z_and_x(
    phi: Complex64,
    m: Matrix2,
    zz: Matrix4,
    xx: Matrix4,
    z: Matrix2,
    x: Matrix2,
    r: int,
    c: int,
)
    requires
        is_matrix_of(Instruction::Rz { qubit: 0, phi }, m),
        is_rzz_of(zz, phi),
        is_rxx_of(xx, phi),
        is_matrix_of(Instruction::Z { qubit: 0 }, z),
        is_matrix_of(Instruction::X { qubit: 0 }, x),
        complex_of(-1, 0) != complex_one(),
        complex_zero() != complex_one(),
        0 <= r < 4,
        0 <= c < 4,
    ensures
        ({
            let back = half_of(complex_neg(phi));
            let turn = half_of(phi);
            &&& r < 2 ==> may_be_cis(
                if z[r][r] == complex_one() {
                    back
                } else {
                    turn
                },
                m[r][r],
            )
            &&& r < 2 ==> m[r][1 - r] == complex_zero()
            &&& may_be_cis(
                if z[r / 2][r / 2] == z[r % 2][r % 2] {
                    back
                } else {
                    turn
                },
                zz[r][r],
            )
            &&& r != c ==> zz[r][c] == complex_zero()
            &&& r != c && !(x[r / 2][c / 2] == complex_one() && x[r % 2][c % 2] == complex_one())
                ==> xx[r][c] == complex_zero()
            &&& exists|t: Complex64| #[trigger]
                may_be_cis(turn, t) && (r == c ==> xx[r][c] == complex_join(t, complex_zero())) && (
                x[r / 2][c / 2] == complex_one() && x[r % 2][c % 2] == complex_one() ==> xx[r][c]
                    == complex_join(complex_zero(), complex_neg(real_imag(t))))
        }),
{
    let back = half_of(complex_neg(phi));
    let turn = half_of(phi);
    let t = choose|t: Complex64| #[trigger]
        is_rxx(xx, t) && may_be_cis(turn, t);
    assert(xx[r][c] == xx[r][c]);
    let (b, u) = choose|b: Complex64, u: Complex64| #[trigger]
        is_rzz(zz, b, u) && may_be_cis(back, b) && may_be_cis(turn, u);
    assert(zz[r][r] == zz[r][r] && zz[r][c] == zz[r][c]);
    let (b1, u1) = choose|b1: Complex64, u1: Complex64| #[trigger]
        is_rz(m, b1, u1) && may_be_cis(back, b1) && may_be_cis(turn, u1);
    assert(may_be_cis(turn, t));
}

/// A rotation about the third axis is the phase gate with the same angle, up to a phase of the
/// whole state: that of its first entry. The sum of minus half the angle and the angle is half
/// the angle, and the phase factors of sums read as products.
pub proof fn law_z_rotations_are_phase_gates<V>(
    val: spec_fn(Complex64) -> V,
    times: spec_fn(V, V) -> V,
    qubit: usize,
    phi: Complex64,
    m: Matrix2,
    p: Matrix2,
    r: int,
    c: int,
)
    requires
        is_matrix_of(Instruction::Rz { qubit, phi }, m),
        is_matrix_of(Instruction::P { qubit, lam: phi }, p),
        complex_add(real_div(complex_neg(phi), complex_of(2, 0)), phi) == real_div(
            phi,
            complex_of(2, 0),
        ),
        forall|a: Complex64, b: Complex64, x: Complex64, y: Complex64, z: Complex64|
            #![trigger may_be_cis(a, x), may_be_cis(b, y), may_be_cis(complex_add(a, b), z)]
            may_be_cis(a, x) && may_be_cis(b, y) && may_be_cis(complex_add(a, b), z) ==> val(z)
                == times(val(x), val(y)),
        forall|v: V| #[trigger] times(v, val(complex_one())) == v,
        forall|v: V| #[trigger] times(v, val(complex_zero())) == val(complex_zero()),
        0 <= r < 2,
        0 <= c < 2,
    ensures
        val(m[r][c]) == times(val(m[0][0]), val(p[r][c])),
{
    let minus = real_div(complex_neg(phi), complex_of(2, 0));
    assert(may_be_cis(minus, m[0][0]));
    assert(may_be_cis(phi, p[1][1]));
    assert(may_be_cis(complex_add(minus, phi), m[1][1]));
}

/// Gates with several names: `P` is `U1`, `U` is `U3`, and `U2` is `U3` with a right angle.
pub proof fn law_gates_with_several_names(
    qubit: usize,
    theta: Complex64,
    phi: Complex64,
    lam: Complex64,
    m: Matrix2,
)
    ensures
        is_matrix_of(Instruction::P { qubit, lam }, m) == is_matrix_of(
            Instruction::U1 { qubit, lam },
            m,
        ),
        is_matrix_of(Instruction::U { qubit, theta, phi, lam }, m) == is_matrix_of(
            Instruction::U3 { qubit, theta, phi, lam },
            m,
        ),
        is_matrix_of(Instruction::U2 { qubit, phi, lam }, m) == is_matrix_of(
            Instruction::U3 { qubit, theta: half_of(pi_value()), phi, lam },
            m,
        ),
{
}

/// The weight of the value 1 of a qubit is the one that its distribution gives to 1.
proof fn lemma_weight_is_marginal(s: Seq<Complex64>, qubit: usize, count: nat)
    ensures
        weight_one(s, qubit, count) == marginal_weight(
            s,
            seq![qubit],
            1,
            count,
        ),
    decreases count,
{
    if count > 0 {
        lemma_weight_is_marginal(s, qubit, (count - 1) as nat);
        let i = (count - 1) as usize;
        assert(seq![qubit].drop_last() =~= Seq::<usize>::empty());
        assert(gate_index(i, Seq::<usize>::empty()) == 0);
        assert(gate_index(i, seq![qubit]) == if bit_set(i, qubit) {
            1nat
        } else {
            0nat
        });
    }
}

/// A measurement writes 1 exactly where the number drawn is below the probability that the
/// distribution of its qubit gives to 1, and 0 otherwise. Afterwards the amplitudes at which the
/// qubit has the other value are zero, and the others are divided by the square root of the
/// probability of what was found. Nothing else is written.
pub proof fn law_measurements_follow_the_distribution(
    qubit: usize,
    cbit: usize,
    n: usize,
    config: KernelConfig,
    links: LinkGates,
    names: bool,
    before: SvState,
    after: SvState,
    calls: CallTally,
)
    requires
        n < usize::BITS,
        qubit < n,
        dimension(n) <= before.amps.len(),
        steps_to(
            Instruction::Measure { qubit, cbit },
            n,
            config,
            links,
            names,
            before,
            after,
            Ok::<CallTally, GateError>(calls),
        ),
    ensures
        ({
            let one = real_less(
                drawn_unit(before.rng).0,
                marginal(before.amps, n, seq![qubit])[1],
            );
            &&& after.cbits == before.cbits.insert(
                cbit,
                if one {
                    1i32
                } else {
                    0i32
                },
            )
            &&& after.rng == drawn_unit(before.rng).1
            &&& after.amps.len() == before.amps.len()
            &&& forall|k: usize|
                #![trigger after.amps[k as int]]
                k < dimension(n) ==> after.amps[k as int] == if bit_set(k, qubit) == one {
                    complex_unscale(
                        before.amps[k as int],
                        real_max(
                            real_sqrt(
                                if one {
                                    marginal(before.amps, n, seq![qubit])[1]
                                } else {
                                    real_max(
                                        complex_sub(
                                            complex_one(),
                                            marginal(before.amps, n, seq![qubit])[1],
                                        ),
                                        complex_zero(),
                                    )
                                },
                            ),
                            tiny(15),
                        ),
                    )
                } else {
                    complex_zero()
                }
        }),
{
    lemma_weight_is_marginal(before.amps, qubit, dimension(n) as nat);
    lemma_small_dimensions();
}

/// A reset is a measurement that is not written, and an X gate after it where it found 1.
pub proof fn law_resets_measure_and_flip(
    qubit: usize,
    cbit: usize,
    n: usize,
    config: KernelConfig,
    links: LinkGates,
    names: bool,
    before: SvState,
    reset: SvState,
    calls: CallTally,
    found: SvState,
    found_calls: CallTally,
) -> (x: Matrix2)
    requires
        n < usize::BITS,
        qubit < n,
        dimension(n) <= before.amps.len(),
        steps_to(
            Instruction::Reset { qubit },
            n,
            config,
            links,
            names,
            before,
            reset,
            Ok::<CallTally, GateError>(calls),
        ),
        steps_to(
            Instruction::Measure { qubit, cbit },
            n,
            config,
            links,
            names,
            before,
            found,
            Ok::<CallTally, GateError>(found_calls),
        ),
    ensures
        is_matrix_of(Instruction::X { qubit }, x),
        reset.cbits == before.cbits,
        reset.rng == found.rng,
        reset.amps == if found.cbits[cbit] == 1 {
            one_qubit_applied(found.amps, x, qubit, n, Seq::empty())
        } else {
            found.amps
        },
{
    lemma_fixed_gate_exists(Kind::X);
    x_gate()
}

/// The columns of a matrix are what it makes of the two basis states of a qubit.
pub proof fn law_columns_are_images_of_basis_states<V>(
    val: spec_fn(Complex64) -> V,
    plus: spec_fn(V, V) -> V,
    u: Matrix2,
    r: int,
    c: int,
)
    requires
        is_reading(val, plus),
        0 <= r < 2,
        0 <= c < 2,
        val(complex_mul(u[r][c], complex_one())) == val(u[r][c]),
        val(complex_mul(u[r][1 - c], complex_zero())) == val(complex_zero()),
    ensures
        val(
            one_qubit_applied(
                if c == 0 {
                    seq![complex_one(), complex_zero()]
                } else {
                    seq![complex_zero(), complex_one()]
                },
                u,
                0,
                1,
                Seq::empty(),
            )[r],
        ) == val(u[r][c]),
{
    let s = if c == 0 {
        seq![complex_one(), complex_zero()]
    } else {
        seq![complex_zero(), complex_one()]
    };
    lemma_applied_to_one_qubit(s, u);
    let first = complex_mul(u[r][0], s[0]);
    let second = complex_mul(u[r][1], s[1]);
    assert(val(complex_add(first, second)) == plus(val(first), val(second)));
}

/// The general rotation is the rotation about the second axis with phases of its own: `phi` where
/// the qubit is set afterwards, `lam` where it was set before.
pub proof fn law_general_rotation_adds_phases(
    qubit: usize,
    theta: Complex64,
    phi: Complex64,
    lam: Complex64,
    m: Matrix2,
) -> (r: (Matrix2, Complex64, Complex64, Complex64))
    requires
        is_matrix_of(Instruction::U3 { qubit, theta, phi, lam }, m),
    ensures
        is_matrix_of(Instruction::Ry { qubit, theta }, r.0),
        may_be_cis(phi, r.1),
        may_be_cis(lam, r.2),
        may_be_cis(complex_add(phi, lam), r.3),
        m[0][0] == r.0[0][0],
        m[1][0] == complex_mul(r.1, r.0[1][0]),
        m[0][1] == complex_neg(complex_mul(r.2, r.0[1][0])),
        m[1][1] == complex_mul(r.3, r.0[1][1]),
{
    let (turn, e_phi, e_lam, e_sum) = choose|
        turn: Complex64,
        e_phi: Complex64,
        e_lam: Complex64,
        e_sum: Complex64,
    | #[trigger]
        is_u3(m, turn, e_phi, e_lam, e_sum) && may_be_cis(half_of(theta), turn) && may_be_cis(
            phi,
            e_phi,
        ) && may_be_cis(lam, e_lam) && may_be_cis(complex_add(phi, lam), e_sum);
    let cosine = complex_join(turn, complex_zero());
    let sine = real_imag(turn);
    let ry: Matrix2 = [[cosine, real_neg(sine)], [sine, cosine]];
    assert(is_ry(ry, turn));
    (ry, e_phi, e_lam, e_sum)
}

/// A phase gate leaves the amplitudes alone at which its qubit is clear, and turns the others by
/// its angle.
pub proof fn law_phase_gates_turn_what_is_set(qubit: usize, lam: Complex64, m: Matrix2)
    requires
        is_matrix_of(Instruction::P { qubit, lam }, m),
    ensures
        m[0][0] == complex_one(),
        m[0][1] == complex_zero(),
        m[1][0] == complex_zero(),
        may_be_cis(lam, m[1][1]),
{
}

/// A relative-phase gate whose matrix is that of a gate with controls acts as that one does
/// without kernels, on its qubits in the order of its operands.
pub proof fn law_relative_phase_gates_act_by_their_matrix(
    inst: Instruction,
    exact: Instruction,
    u: Matrix2,
    n: usize,
    config: KernelConfig,
    links: LinkGates,
    names: bool,
    act: Action,
)
    requires
        is_fixed_gate(Kind::X, u),
        match (inst, exact) {
            (
                Instruction::Rccx { control1, control2, target },
                Instruction::Ccx { control1: a, control2: b, target: t },
            ) => control1 == a && control2 == b && target == t && is_controlled(
                links.rccx@,
                2,
                u,
            ),
            (
                Instruction::Rc3x { control1, control2, control3, target },
                Instruction::C3x { control1: a, control2: b, control3: c, target: t },
            ) => control1 == a && control2 == b && control3 == c && target == t && is_controlled(
                links.rc3x@,
                3,
                u,
            ),
            _ => false,
        },
        !config.two_qubit_kernels,
        is_action_of(inst, n, config, links, names, Ok::<Action, GateError>(act)),
    ensures
        is_action_of(exact, n, config, links, names, Ok::<Action, GateError>(act)),
{
    lemma_small_dimensions();
    assert(inst.touched() =~= exact.touched());
    match act {
        Action::MultiQubit { rows, .. } => {
            let given = if inst is Rccx {
                links.rccx@
            } else {
                links.rc3x@
            };
            let controls: nat = if inst is Rccx {
                2
            } else {
                3
            };
            let dim = 2 * dimension(controls as usize);
            assert forall|r: int| 0 <= r < dim implies (#[trigger] rows@[r])@.len() == dim by {
                assert(rows@[r]@ == given[r]@);
                assert(given[r]@.len() == dim);
            }
            assert forall|r: int, c: int| 0 <= r < dim && 0 <= c < dim implies #[trigger] rows@[r]@[c]
                == controlled_entry(u, dim, r, c) by {
                assert(rows@[r]@ == given[r]@);
                assert(given[r]@[c] == controlled_entry(u, dim, r, c));
            }
            assert(is_target_matrix(exact, u));
            assert(is_controlled(rows@, controls, u));
        },
        _ => {},
    }
}

} // verus!
