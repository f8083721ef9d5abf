use std::collections::HashMap;

use dqsim::circuit::{format_cbits, Circuit, Register};
use dqsim::config::KernelConfig;
use dqsim::counts::{merge_counts, Counts};
use dqsim::engine::{apply_cz_kernel, apply_swap_kernel};
use dqsim::gates::{swap_4, LinkGates};
use dqsim::guards::{
    test_circuit, test_mps_runnable, test_mps_simulable, test_runnable, test_shot_simulable,
    test_simulable, test_stabilizer_runnable,
};
use dqsim::instruction::{Condition, Instruction};
use dqsim::stabilizer_shots::{knows_instruction, run_stabilizer_shots, seed_of_shot};
use dqsim::statevector_shots::{ShotSettings, StatevectorSimulator};
use dqsim::terminal::{
    terminal_basis_key, TerminalMeasurement, TerminalMeasurementPlan, TerminalSamplingMode,
};
use num_complex::Complex64;

type C = Complex64;

fn re(value: f64) -> C {
    C::new(value, 0.0)
}

fn rows(dim: usize) -> Vec<Vec<C>> {
    (0..dim)
        .map(|r| (0..dim).map(|c| if r == c { re(1.0) } else { re(0.0) }).collect())
        .collect()
}

fn links() -> LinkGates {
    LinkGates {
        phi_plus: swap_4(),
        psi_minus: swap_4(),
        psi_plus: swap_4(),
        rccx: rows(8),
        rc3x: rows(16),
    }
}

fn circuit(qubits: usize, cbits: usize, instructions: Vec<Instruction>) -> Circuit {
    Circuit {
        qregs: vec![Register { name: "q".to_string(), size: qubits, base: 0 }],
        cregs: vec![Register { name: "c".to_string(), size: cbits, base: 0 }],
        instructions,
    }
}

fn coins() -> Circuit {
    circuit(
        2,
        2,
        vec![
            Instruction::H { qubit: 0 },
            Instruction::H { qubit: 1 },
            Instruction::Measure { qubit: 0, cbit: 0 },
            Instruction::Measure { qubit: 1, cbit: 1 },
        ],
    )
}

fn same_counts(a: &Counts, b: &Counts) -> bool {
    a.len() == b.len() && a.entries.iter().all(|(key, value)| b.get(key) == Some(value))
}

fn settings(truncation: bool) -> ShotSettings {
    ShotSettings {
        kernels: KernelConfig { two_qubit_kernels: true, multi_control_min_qubits: 0 },
        truncation,
        branching: false,
        sampling: TerminalSamplingMode::Auto,
    }
}

#[test]
fn symmetric_gates_do_not_care_about_the_order_of_their_qubits() {
    let state: Vec<C> = (0..8).map(|i| C::new(i as f64, -(i as f64))).collect();
    let mut a = state.clone();
    let mut b = state.clone();
    apply_cz_kernel(&mut a, 0, 2, 3);
    apply_cz_kernel(&mut b, 2, 0, 3);
    assert_eq!(a, b);
    apply_swap_kernel(&mut a, 1, 2, 3);
    apply_swap_kernel(&mut b, 2, 1, 3);
    assert_eq!(a, b);
    assert_ne!(a, state);
}

#[test]
fn a_second_controlled_z_restores_the_state() {
    let state: Vec<C> = (0..8).map(|i| C::new(i as f64, -(i as f64))).collect();
    let mut a = state.clone();
    apply_cz_kernel(&mut a, 0, 2, 3);
    assert_ne!(a, state);
    apply_cz_kernel(&mut a, 0, 2, 3);
    assert_eq!(a, state);
}

#[test]
fn stabilizer_shots_can_be_run_in_parts() {
    let c = coins();
    let whole = run_stabilizer_shots(&c, 40, u64::MAX - 9, false).unwrap().counts;
    let mut parts = run_stabilizer_shots(&c, 15, u64::MAX - 9, false).unwrap().counts;
    let rest =
        run_stabilizer_shots(&c, 25, seed_of_shot(u64::MAX - 9, 15), false).unwrap().counts;
    merge_counts(&mut parts, &rest);
    assert!(same_counts(&whole, &parts));
}

#[test]
fn statevector_shots_can_be_run_in_parts() {
    let c = coins();
    let run = |seed: u64, shots: usize| {
        StatevectorSimulator::new(Some(seed), false)
            .simulate_shots(&c, shots, 0, settings(false), &links())
            .ok()
            .unwrap()
            .counts
    };
    let whole = run(100, 40);
    let mut parts = run(100, 7);
    merge_counts(&mut parts, &run(seed_of_shot(100, 7), 33));
    assert!(same_counts(&whole, &parts));
}

#[test]
fn sampled_keys_are_the_text_of_written_bits() {
    let plan = TerminalMeasurementPlan {
        measurements: vec![
            TerminalMeasurement { qubit: 3, cbit: 0 },
            TerminalMeasurement { qubit: 1, cbit: 2 },
            TerminalMeasurement { qubit: 0, cbit: 9 },
        ],
    };
    for basis in 0..16usize {
        let mut cbits: HashMap<usize, i32> = HashMap::new();
        for m in &plan.measurements {
            cbits.insert(m.cbit, ((basis >> m.qubit) & 1) as i32);
        }
        assert_eq!(terminal_basis_key(basis, &plan, 4), format_cbits(&cbits, 4));
    }
}

#[test]
fn large_circuits_fit_when_few_qubits_count() {
    let c = circuit(
        200,
        1,
        vec![
            Instruction::X { qubit: 150 },
            Instruction::H { qubit: 3 },
            Instruction::Cx { control: 150, target: 70 },
            Instruction::Measure { qubit: 70, cbit: 0 },
        ],
    );
    assert!(!test_simulable(&c));
    assert!(!test_shot_simulable(&c, false));
    assert!(test_shot_simulable(&c, true));
    let report = StatevectorSimulator::new(Some(1), false)
        .simulate_shots(&c, 4, 0, settings(true), &links())
        .ok()
        .unwrap();
    assert_eq!(report.original_num_qubits, 200);
    assert_eq!(report.effective_num_qubits, 2);
    assert_eq!(report.counts.get("1"), Some(&4));
    assert!(test_mps_simulable(&c));
    assert!(test_stabilizer_runnable(&c));
}

#[test]
fn what_is_not_run_may_lie_outside() {
    let unknown = || Instruction::Gate {
        name: "mystery".to_string(),
        params: vec![],
        qubits: vec![9],
    };
    let c = circuit(1, 1, vec![unknown(), Instruction::X { qubit: 5 }]);
    assert!(test_simulable(&c));
    assert!(test_shot_simulable(&c, false));
    assert!(test_stabilizer_runnable(&c));
    let sim = StatevectorSimulator::new(Some(1), false);
    assert!(sim.simulate(&c, 0, settings(false).kernels, &links()).is_err());
    assert!(sim.simulate_shots(&c, 3, 0, settings(false), &links()).is_err());
    assert!(run_stabilizer_shots(&c, 3, 0, false).is_err());
    assert!(!test_simulable(&circuit(1, 1, vec![Instruction::X { qubit: 5 }, unknown()])));
    let far = circuit(
        1,
        1,
        vec![Instruction::Id { qubit: 8 }, Instruction::Measure { qubit: 0, cbit: 0 }],
    );
    assert!(test_simulable(&far));
    assert!(test_shot_simulable(&far, false));
    let report = sim.simulate_shots(&far, 3, 0, settings(false), &links()).ok().unwrap();
    assert_eq!(report.counts.get("0"), Some(&3));
    assert!(test_stabilizer_runnable(&far));
    assert_eq!(sim.simulate(&far, 0, settings(false).kernels, &links()).ok().unwrap().sv.len(), 2);
    assert_eq!(run_stabilizer_shots(&far, 3, 0, false).unwrap().counts.get("0"), Some(&3));
}

#[test]
fn circuits_that_do_not_fit_are_found() {
    let far = circuit(2, 1, vec![Instruction::X { qubit: 2 }]);
    assert!(test_circuit(&far));
    assert!(!test_simulable(&far));
    assert!(!test_mps_simulable(&far));
    assert!(!test_stabilizer_runnable(&far));
    let wide = Circuit {
        qregs: vec![Register { name: "q".to_string(), size: usize::MAX, base: 1 }],
        cregs: vec![],
        instructions: vec![],
    };
    assert!(!test_circuit(&wide));
    assert!(!test_simulable(&wide));
    let gate = |name: &str, qubits: Vec<usize>| Instruction::Gate {
        name: name.to_string(),
        params: vec![],
        qubits,
    };
    assert!(test_runnable(&gate("remote_cx", vec![0, 1]), 2));
    assert!(!test_runnable(&gate("remote_cx", vec![0, 1, 2]), 3));
    assert!(test_runnable(&gate("unknown", vec![7]), 2));
    assert!(!test_mps_runnable(&gate("epr", vec![0]), 2));
    assert!(test_mps_runnable(&gate("epr", vec![0, 1, 9]), 2));
    let long = Instruction::Conditional {
        condition: Condition { creg_base: 0, creg_size: 65, creg_value: 0 },
        op: Box::new(Instruction::Barrier),
    };
    assert!(!test_runnable(&long, 2));
    assert!(!test_mps_runnable(&long, 2));
    assert!(knows_instruction(&Instruction::Sdg { qubit: 0 }));
    assert!(!knows_instruction(&Instruction::Cz { control: 0, target: 1 }));
}
