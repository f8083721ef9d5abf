//! What gates between nodes do, in terms of the gates within a node.

use num_complex::Complex64;
use vstd::prelude::*;

use crate::bits::dimension;
use crate::config::KernelConfig;
use crate::controlled_laws::{all_plain, is_reading};
use crate::engine::Matrix2;
use crate::gate_error::{remote_gate_of, GateError};
use crate::gate_laws::{law_controlled_gates_guard_the_plain_gate, named_controls};
use crate::gate_matrix::is_fixed_gate;
use crate::gates::{
    controlled_entry, is_controlled, is_controlled_4, lemma_small_dimensions, LinkGates,
};
use crate::instruction::{Instruction, Kind};
use crate::mps_kernel::Matrix4;
use crate::mps_run::{acts_to, is_mps_action_of, mps_gate_of, mps_steps_to, MpsAction, MpsPoint};
use crate::statevector::{
    is_action_of, is_runnable_on, is_target_matrix, lemma_same_entries, steps_to, Action,
    CallTally, SvState,
};
use crate::text::lowercased;

verus! {

/// The names of gates between nodes are all different, and different from those of subcircuits.
pub proof fn lemma_remote_names()
    ensures
        remote_gate_of("remote_cz"@) is Cz,
        remote_gate_of("nonlocal_cz"@) is Cz,
        remote_gate_of("remote_cx"@) is Cx,
        remote_gate_of("remote_link_phi_plus"@) is PhiPlus,
        remote_gate_of("remote_epr"@) is PhiPlus,
        remote_gate_of("remote_link_psi_minus"@) is PsiMinus,
        remote_gate_of("remote_link_psi_plus"@) is PsiPlus,
        remote_gate_of("remote_barrier"@) is Barrier,
        remote_gate_of("remote_cu1"@) is Cu1,
        "remote_cz"@ != "epr"@,
        "nonlocal_cz"@ != "epr"@,
        "remote_cx"@ != "epr"@,
        "remote_link_phi_plus"@ != "epr"@,
        "remote_epr"@ != "epr"@,
        "remote_link_psi_minus"@ != "epr"@,
        "remote_link_psi_plus"@ != "epr"@,
        "remote_barrier"@ != "epr"@,
        "remote_cu1"@ != "epr"@,
{
    reveal_strlit("remote_cz");
    reveal_strlit("nonlocal_cz");
    reveal_strlit("remote_cx");
    reveal_strlit("remote_link_phi_plus");
    reveal_strlit("remote_epr");
    reveal_strlit("remote_link_psi_minus");
    reveal_strlit("remote_link_psi_plus");
    reveal_strlit("remote_barrier");
    reveal_strlit("remote_cu1");
    reveal_strlit("epr");
    assert("remote_cz"@[8] == 'z' && "remote_cx"@[8] == 'x');
    assert("remote_cz"@.len() == 9 && "remote_cx"@.len() == 9 && "nonlocal_cz"@.len() == 11);
    assert("remote_link_phi_plus"@.len() == 20 && "remote_link_psi_plus"@.len() == 20);
    assert("remote_link_phi_plus"@[13] == 'h' && "remote_link_psi_plus"@[13] == 's');
    assert("remote_link_psi_minus"@.len() == 21 && "remote_epr"@.len() == 10);
    assert("remote_barrier"@.len() == 14 && "remote_cu1"@.len() == 10);
    assert("remote_epr"@[7] == 'e' && "remote_cu1"@[7] == 'c');
    assert("epr"@.len() == 3);
}

/// Whether a gate between nodes has a name, in whatever case it is written.
pub open spec fn is_named(inst: Instruction, name: Seq<char>) -> bool {
    inst matches Instruction::Gate { name: written, .. } && lowercased(written@) == name
}

/// Whether a gate between nodes is a controlled gate by its name, and `local` is that gate on its
/// first two qubits.
pub open spec fn is_local_form(inst: Instruction, local: Instruction) -> bool {
    match (inst, local) {
        (Instruction::Gate { qubits, .. }, Instruction::Cz { control, target }) => (is_named(
            inst,
            "remote_cz"@,
        ) || is_named(inst, "nonlocal_cz"@)) && qubits@.len() >= 2 && control == qubits@[0] && target
            == qubits@[1],
        (Instruction::Gate { qubits, .. }, Instruction::Cx { control, target }) => is_named(
            inst,
            "remote_cx"@,
        ) && qubits@.len() >= 2 && control == qubits@[0] && target == qubits@[1],
        _ => false,
    }
}

/// The settings without kernels.
pub open spec fn without_kernels(config: KernelConfig) -> KernelConfig {
    KernelConfig { two_qubit_kernels: false, ..config }
}

/// A gate between nodes that is called a controlled gate leads from a state exactly where that
/// gate on its two qubits does without kernels.
pub proof fn law_remote_gates_are_local_gates(
    inst: Instruction,
    local: Instruction,
    n: usize,
    config: KernelConfig,
    links: LinkGates,
    names: bool,
    before: SvState,
    after: SvState,
    result: Result<CallTally, GateError>,
)
    requires
        is_local_form(inst, local),
        inst.touched().len() == 2,
    ensures
        steps_to(inst, n, config, links, names, before, after, result) <==> steps_to(
            local,
            n,
            without_kernels(config),
            links,
            names,
            before,
            after,
            result,
        ),
{
    lemma_remote_names();
    let own = without_kernels(config);
    assert(inst.touched() =~= local.touched());
    assert forall|action: Result<Action, GateError>| #[trigger]
        is_action_of(inst, n, config, links, names, action) <==> is_action_of(
            local,
            n,
            own,
            links,
            names,
            action,
        ) by {
        lemma_same_action(inst, local, n, config, links, names, action);
    }
    assert forall|action: Result<Action, GateError>| #[trigger]
        is_action_of(local, n, own, links, names, action) <==> is_action_of(
            inst,
            n,
            config,
            links,
            names,
            action,
        ) by {
        lemma_same_action(inst, local, n, config, links, names, action);
    }
}

proof fn lemma_same_action(
    inst: Instruction,
    local: Instruction,
    n: usize,
    config: KernelConfig,
    links: LinkGates,
    names: bool,
    action: Result<Action, GateError>,
)
    requires
        is_local_form(inst, local),
        inst.touched().len() == 2,
    ensures
        is_action_of(inst, n, config, links, names, action) <==> is_action_of(
            local,
            n,
            without_kernels(config),
            links,
            names,
            action,
        ),
{
    lemma_remote_names();
    assert(inst.touched() =~= local.touched());
    match action {
        Ok(Action::MultiQubit { rows, .. }) => {
            if is_action_of(inst, n, config, links, names, action) {
                let kind = if local is Cz {
                    Kind::Z
                } else {
                    Kind::X
                };
                let m = choose|m: Matrix2| #[trigger]
                    is_fixed_gate(kind, m) && is_controlled(
                        rows@,
                        1,
                        m,
                    );
                assert(is_target_matrix(local, m));
            }
            if is_action_of(local, n, without_kernels(config), links, names, action) {
                let m = choose|m: Matrix2| #[trigger]
                    is_target_matrix(local, m) && is_controlled(
                        rows@,
                        1,
                        m,
                    );
                if local is Cz {
                    assert(is_fixed_gate(
                        Kind::Z,
                        m,
                    ));
                } else {
                    assert(is_fixed_gate(
                        Kind::X,
                        m,
                    ));
                }
            }
        },
        _ => {},
    }
}

/// A gate between nodes that is called a controlled gate, and that gate within a node, with or
/// without kernels, make the same of a state.
pub proof fn law_remote_and_local_runs_agree<V>(
    val: spec_fn(Complex64) -> V,
    plus: spec_fn(V, V) -> V,
    inst: Instruction,
    local: Instruction,
    n: usize,
    config: KernelConfig,
    links: LinkGates,
    names: bool,
    before: SvState,
    remote: SvState,
    remote_calls: CallTally,
    after: SvState,
    calls: CallTally,
    k: usize,
)
    requires
        is_reading(val, plus),
        all_plain(val, before.amps),
        is_local_form(inst, local),
        inst.touched().len() == 2,
        inst.touched()[0] != inst.touched()[1],
        n < usize::BITS,
        k < dimension(n) <= before.amps.len(),
        is_runnable_on(local, n as int),
        steps_to(
            inst,
            n,
            config,
            links,
            names,
            before,
            remote,
            Ok::<CallTally, GateError>(remote_calls),
        ),
        steps_to(local, n, config, links, names, before, after, Ok::<CallTally, GateError>(calls)),
    ensures
        val(remote.amps[k as int]) == val(after.amps[k as int]),
        remote.cbits == after.cbits,
        remote.rng == after.rng,
{
    law_remote_gates_are_local_gates(
        inst,
        local,
        n,
        config,
        links,
        names,
        before,
        remote,
        Ok::<CallTally, GateError>(remote_calls),
    );
    let target = inst.touched()[1];
    let plain = if local is Cz {
        Instruction::Z { qubit: target }
    } else {
        Instruction::X { qubit: target }
    };
    assert(!named_controls(local).contains(target));
    let a = law_controlled_gates_guard_the_plain_gate(
        val,
        plus,
        local,
        plain,
        n,
        without_kernels(config),
        links,
        names,
        before,
        remote,
        remote_calls,
    );
    let b = law_controlled_gates_guard_the_plain_gate(
        val,
        plus,
        local,
        plain,
        n,
        config,
        links,
        names,
        before,
        after,
        calls,
    );
    lemma_same_entries(before.amps, a, b, target, n, Seq::empty());
    let (first, second) = (remote.amps, after.amps);
    assert(val(first[k as int]) == val(second[k as int]));
}

/// On a matrix product state, a gate between nodes that is called a controlled gate leads exactly
/// where that gate on its first two qubits does.
pub proof fn law_remote_gates_are_local_gates_on_mps(
    inst: Instruction,
    local: Instruction,
    ahead: Seq<Instruction>,
    links: LinkGates,
    before: MpsPoint,
    after: MpsPoint,
    res: Result<(), GateError>,
)
    requires
        is_local_form(inst, local),
    ensures
        mps_steps_to(inst, ahead, links, before, after, res) <==> mps_steps_to(
            local,
            ahead,
            links,
            before,
            after,
            res,
        ),
{
    lemma_remote_names();
    assert forall|action: Result<MpsAction, GateError>| #[trigger]
        is_mps_action_of(inst, links, action) <==> is_mps_action_of(local, links, action) by {
        lemma_same_mps_action(inst, local, links, action);
    }
    assert forall|action: Result<MpsAction, GateError>| #[trigger]
        is_mps_action_of(local, links, action) <==> is_mps_action_of(inst, links, action) by {
        lemma_same_mps_action(inst, local, links, action);
    }
}

proof fn lemma_same_mps_action(
    inst: Instruction,
    local: Instruction,
    links: LinkGates,
    action: Result<MpsAction, GateError>,
)
    requires
        is_local_form(inst, local),
    ensures
        is_mps_action_of(inst, links, action) <==> is_mps_action_of(local, links, action),
{
    lemma_remote_names();
    match action {
        Ok(MpsAction::TwoQubit { gate, .. }) => {
            let kind = if local is Cz {
                Kind::Z
            } else {
                Kind::X
            };
            if is_mps_action_of(inst, links, action) {
                let u = choose|u: Matrix2| #[trigger]
                    is_fixed_gate(kind, u) && is_controlled_4(
                        gate,
                        u,
                    );
                assert(is_target_matrix(local, u));
            }
            if is_mps_action_of(local, links, action) {
                let u = choose|u: Matrix2| #[trigger]
                    is_target_matrix(local, u)
                        && is_controlled_4(gate, u);
                assert(is_fixed_gate(kind, u));
            }
        },
        _ => {},
    }
}

/// Links with the matrix of one of them in the place of the first.
pub open spec fn with_first_link(links: LinkGates, m: Matrix4) -> LinkGates {
    LinkGates { phi_plus: m, ..links }
}

/// The matrix of the link that a name stands for, if it stands for one.
pub open spec fn link_named(name: Seq<char>, links: LinkGates) -> Option<
    Matrix4,
> {
    if name == "remote_link_phi_plus"@ || name == "remote_epr"@ {
        Some(links.phi_plus)
    } else if name == "remote_link_psi_minus"@ {
        Some(links.psi_minus)
    } else if name == "remote_link_psi_plus"@ {
        Some(links.psi_plus)
    } else {
        None
    }
}

/// Every link acts on its qubits as the first one would with the matrix of the link, in both
/// simulators.
pub proof fn law_links_apply_their_own_matrix(
    inst: Instruction,
    first: Instruction,
    m: Matrix4,
    n: usize,
    config: KernelConfig,
    links: LinkGates,
    names: bool,
    action: Result<Action, GateError>,
    mps_action: Result<MpsAction, GateError>,
)
    requires
        inst is Gate,
        link_named(lowercased(inst->Gate_name@), links) == Some(m),
        is_named(first, "remote_link_phi_plus"@),
        first.touched() == inst.touched(),
    ensures
        is_action_of(inst, n, config, links, names, action) <==> is_action_of(
            first,
            n,
            config,
            with_first_link(links, m),
            names,
            action,
        ),
        is_mps_action_of(inst, links, mps_action) <==> is_mps_action_of(
            first,
            with_first_link(links, m),
            mps_action,
        ),
{
    lemma_remote_names();
}

/// On a matrix product state a gate named `epr` is the link that `remote_epr` names too; on a
/// state vector the name is not known.
pub proof fn law_epr_is_a_link_on_mps_alone(
    inst: Instruction,
    link: Instruction,
    links: LinkGates,
    mps_action: Result<MpsAction, GateError>,
    n: usize,
    config: KernelConfig,
    names: bool,
    action: Result<Action, GateError>,
)
    requires
        is_named(inst, "epr"@),
        is_named(link, "remote_epr"@) || is_named(link, "remote_link_phi_plus"@),
        link.touched() == inst.touched(),
        is_action_of(inst, n, config, links, names, action),
    ensures
        is_mps_action_of(inst, links, mps_action) <==> is_mps_action_of(link, links, mps_action),
        action is Err,
{
    lemma_remote_names();
    reveal_strlit("epr");
    reveal_strlit("circuit-");
}

/// A barrier between nodes changes nothing, and names that are not known are errors, in both
/// simulators.
pub proof fn law_other_names_do_nothing_or_fail(
    inst: Instruction,
    n: usize,
    config: KernelConfig,
    links: LinkGates,
    names: bool,
    before: SvState,
    after: SvState,
    result: Result<CallTally, GateError>,
    ahead: Seq<Instruction>,
    from: MpsPoint,
    to: MpsPoint,
    res: Result<(), GateError>,
)
    requires
        steps_to(inst, n, config, links, names, before, after, result),
        mps_steps_to(inst, ahead, links, from, to, res),
        is_named(inst, "remote_barrier"@) || is_named(inst, "remote_cu1"@),
    ensures
        after == before,
        to == from,
        is_named(inst, "remote_barrier"@) ==> result is Ok && res is Ok,
        is_named(inst, "remote_cu1"@) ==> result is Err && res is Err,
{
    lemma_remote_names();
    let action = choose|action: Result<MpsAction, GateError>| #[trigger]
        is_mps_action_of(inst, links, action) && match action {
            Ok(act) => acts_to(act, ahead, from, to, res),
            Err(e) => to == from && res == Err::<(), GateError>(e),
        };
    assert(mps_gate_of("remote_barrier"@) is Barrier && mps_gate_of("remote_cu1"@) is Cu1);
}

/// A link whose matrix is that of a controlled NOT acts as that gate does on its two qubits
/// without kernels: its first qubit is the control.
pub proof fn law_links_act_on_their_qubits_in_order(
    inst: Instruction,
    m: Matrix4,
    x: Matrix2,
    control: usize,
    target: usize,
    n: usize,
    config: KernelConfig,
    links: LinkGates,
    names: bool,
    act: Action,
    mps_act: MpsAction,
)
    requires
        inst is Gate,
        link_named(lowercased(inst->Gate_name@), links) == Some(m),
        inst.touched() == seq![control, target],
        is_fixed_gate(Kind::X, x),
        is_controlled_4(m, x),
        is_action_of(inst, n, config, links, names, Ok::<Action, GateError>(act)),
        is_mps_action_of(inst, links, Ok::<MpsAction, GateError>(mps_act)),
    ensures
        is_action_of(
            Instruction::Cx { control, target },
            n,
            without_kernels(config),
            links,
            names,
            Ok::<Action, GateError>(act),
        ),
        mps_act == (MpsAction::TwoQubit { gate: m, a: control, b: target, hint: None }),
{
    lemma_remote_names();
    lemma_small_dimensions();
    let local = Instruction::Cx { control, target };
    match act {
        Action::MultiQubit { rows, .. } => {
            assert forall|r: int, c: int| 0 <= r < 4 && 0 <= c < 4 implies #[trigger] rows@[r]@[c]
                == controlled_entry(x, 4, r, c) by {
                assert(rows@[r]@[c] == m[r][c]);
            }
            assert(is_controlled(rows@, 1, x));
            assert(is_target_matrix(local, x));
            assert(local.touched() =~= seq![control, target]);
        },
        _ => {},
    }
}

/// A gate between nodes whose name is not known changes nothing and fails, in both simulators.
pub proof fn law_unknown_names_fail(
    inst: Instruction,
    n: usize,
    config: KernelConfig,
    links: LinkGates,
    names: bool,
    before: SvState,
    after: SvState,
    result: Result<CallTally, GateError>,
    ahead: Seq<Instruction>,
    from: MpsPoint,
    to: MpsPoint,
    res: Result<(), GateError>,
)
    requires
        inst is Gate,
        steps_to(inst, n, config, links, names, before, after, result),
        mps_steps_to(inst, ahead, links, from, to, res),
        !is_named(inst, "remote_cz"@),
        !is_named(inst, "nonlocal_cz"@),
        !is_named(inst, "remote_cx"@),
        !is_named(inst, "remote_barrier"@),
        !is_named(inst, "epr"@),
        link_named(lowercased(inst->Gate_name@), links) is None,
    ensures
        after == before,
        result is Err,
        to == from,
        res is Err,
{
}

/// Names that differ only in the case of their letters mean the same, in both simulators.
pub proof fn law_case_of_names_does_not_matter(
    inst: Instruction,
    other: Instruction,
    n: usize,
    config: KernelConfig,
    links: LinkGates,
    names: bool,
    action: Action,
    mps_action: MpsAction,
)
    requires
        inst is Gate,
        other is Gate,
        lowercased(inst->Gate_name@) == lowercased(other->Gate_name@),
        inst.touched() == other.touched(),
    ensures
        is_action_of(inst, n, config, links, names, Ok::<Action, GateError>(action))
            <==> is_action_of(other, n, config, links, names, Ok::<Action, GateError>(action)),
        is_mps_action_of(inst, links, Ok::<MpsAction, GateError>(mps_action))
            <==> is_mps_action_of(other, links, Ok::<MpsAction, GateError>(mps_action)),
{
}

} // verus!
