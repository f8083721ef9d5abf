use std::collections::HashMap;

use dqsim::circuit::{Circuit, Register};
use dqsim::config::KernelConfig;
use dqsim::gate_error::GateError;
use dqsim::gates::{swap_4, LinkGates};
use dqsim::instruction::{Condition, Instruction};
use dqsim::sampling::{
    all_qubits, cumulative_distribution, sample_cdf, sample_cdf_counts, sample_counts,
};
use dqsim::statevector::{
    instruction_uses_statevector_two_qubit_kernel, run_instruction, run_instruction_par,
    test_condition, CallTally,
};
use dqsim::statevector_shots::{
    ground_state, CallTimes, ShotSettings, SimulationError, SimulationResult, StatevectorSimulator,
};
use dqsim::terminal::TerminalSamplingMode;
use dqsim::truncation::{
    build_count_qubit_truncation, count_relevant_qubits, remap_instruction_for_truncation,
    remap_instruction_qubits_in_place, TruncationError,
};
use num_complex::Complex64;
use rand::SeedableRng;
use rand_chacha::ChaCha8Rng;

type C = Complex64;

fn re(value: f64) -> C {
    C::new(value, 0.0)
}

fn rows(dim: usize) -> Vec<Vec<C>> {
    (0..dim)
        .map(|r| (0..dim).map(|c| if r == c { re(1.0) } else { re(0.0) }).collect())
        .collect()
}

fn links() -> LinkGates {
    LinkGates {
        phi_plus: swap_4(),
        psi_minus: swap_4(),
        psi_plus: swap_4(),
        rccx: rows(8),
        rc3x: rows(16),
    }
}

fn kernels() -> KernelConfig {
    KernelConfig { two_qubit_kernels: true, multi_control_min_qubits: 0 }
}

fn no_kernels() -> KernelConfig {
    KernelConfig { two_qubit_kernels: false, multi_control_min_qubits: 8 }
}

fn circuit(qubits: usize, cbits: usize, instructions: Vec<Instruction>) -> Circuit {
    Circuit {
        qregs: vec![Register { name: "q".to_string(), size: qubits, base: 0 }],
        cregs: vec![Register { name: "c".to_string(), size: cbits, base: 0 }],
        instructions,
    }
}

fn assert_close(actual: &[C], expected: &[C]) {
    assert_eq!(actual.len(), expected.len());
    for (i, (a, e)) in actual.iter().zip(expected).enumerate() {
        assert!((a - e).norm() < 1e-9, "amplitude {i}: {a} != {e}");
    }
}

fn wide_circuit() -> Vec<Instruction> {
    let a = re(0.4);
    let b = re(1.3);
    vec![
        Instruction::H { qubit: 0 },
        Instruction::Rx { qubit: 1, theta: a },
        Instruction::Ry { qubit: 2, theta: b },
        Instruction::Rz { qubit: 3, phi: a },
        Instruction::U3 { qubit: 4, theta: a, phi: b, lam: a },
        Instruction::Cx { control: 0, target: 3 },
        Instruction::Cz { control: 1, target: 2 },
        Instruction::Cy { control: 2, target: 4 },
        Instruction::Ch { control: 3, target: 0 },
        Instruction::Csx { control: 4, target: 1 },
        Instruction::Crx { control: 0, target: 2, theta: b },
        Instruction::Cry { control: 1, target: 3, theta: a },
        Instruction::Crz { control: 2, target: 4, lam: b },
        Instruction::Cu1 { control: 3, target: 1, lam: a },
        Instruction::Cp { control: 4, target: 0, lam: b },
        Instruction::Cu3 { control: 0, target: 4, theta: a, phi: b, lam: a },
        Instruction::Cu { control: 1, target: 0, theta: a, phi: b, lam: a, gamma: b },
        Instruction::Swap { a: 0, b: 4 },
        Instruction::Rxx { a: 1, b: 3, theta: a },
        Instruction::Rzz { a: 2, b: 0, theta: b },
        Instruction::Ccx { control1: 0, control2: 1, target: 2 },
        Instruction::Cswap { control: 3, target1: 1, target2: 4 },
        Instruction::C3x { control1: 0, control2: 1, control3: 2, target: 4 },
        Instruction::C3sqrtx { control1: 4, control2: 1, control3: 2, target: 0 },
        Instruction::C4x { control1: 0, control2: 1, control3: 2, control4: 3, target: 4 },
        Instruction::U2 { qubit: 0, phi: a, lam: b },
        Instruction::U1 { qubit: 1, lam: a },
        Instruction::P { qubit: 2, lam: b },
        Instruction::Sxdg { qubit: 3 },
        Instruction::Tdg { qubit: 4 },
        Instruction::Rccx { control1: 0, control2: 1, target: 2 },
        Instruction::Rc3x { control1: 0, control2: 1, control3: 2, target: 3 },
    ]
}

#[test]
fn kernels_and_matrices_give_the_same_state() {
    let c = circuit(5, 0, wide_circuit());
    let sim = StatevectorSimulator::new(Some(1), true);
    let fast = sim.simulate(&c, 0, kernels(), &links()).ok().unwrap();
    let slow = sim.simulate(&c, 0, no_kernels(), &links()).ok().unwrap();
    assert_close(&fast.sv, &slow.sv);
    let norm: f64 = fast.sv.iter().map(|a| a.norm_sqr()).sum();
    assert!((norm - 1.0).abs() < 1e-9);
    assert_eq!(fast.calls.one_qubit, slow.calls.one_qubit);
    assert_eq!(fast.calls.one_qubit, 10);
    assert_eq!(fast.calls.n_qubit, 22);
}

#[test]
fn a_simulation_counts_its_calls() {
    let list = vec![
        Instruction::X { qubit: 0 },
        Instruction::Cx { control: 0, target: 1 },
        Instruction::Measure { qubit: 1, cbit: 0 },
        Instruction::Reset { qubit: 1 },
        Instruction::Barrier,
    ];
    let sim = StatevectorSimulator::new(Some(2), true);
    let result = sim.simulate(&circuit(2, 1, list), 0, kernels(), &links()).ok().unwrap();
    assert_eq!(result.calls, CallTally { one_qubit: 2, n_qubit: 1, measure: 2 });
    assert_eq!(result.cbits.get(&0), Some(&1));
    assert_close(&result.sv, &[re(0.0), re(1.0), re(0.0), re(0.0)]);
}

#[test]
fn conditions_read_registers() {
    let mut cbits: HashMap<usize, i32> = HashMap::new();
    cbits.insert(3, 1);
    cbits.insert(5, 1);
    let c = |creg_value: u64| Condition { creg_base: 3, creg_size: 3, creg_value };
    assert!(test_condition(&cbits, &c(5)));
    assert!(!test_condition(&cbits, &c(4)));
    assert!(test_condition(&cbits, &Condition { creg_base: 0, creg_size: 0, creg_value: 0 }));
}

#[test]
fn unsupported_gates_leave_the_state() {
    let gate = |name: &str| Instruction::Gate {
        name: name.to_string(),
        params: vec![],
        qubits: vec![0, 1],
    };
    let mut state = ground_state(2);
    let mut cbits: HashMap<usize, i32> = HashMap::new();
    let mut rng = ChaCha8Rng::seed_from_u64(0);
    let single =
        run_instruction(&mut state, &gate("Circuit-A"), 2, &mut cbits, &mut rng, kernels(), &links());
    match single {
        Err(GateError::UnsupportedGate { name }) => assert_eq!(name, "circuit-a"),
        _ => panic!("expected an unsupported gate"),
    }
    let shot = run_instruction_par(
        &mut state,
        &gate("Circuit-A"),
        2,
        &mut cbits,
        &mut rng,
        kernels(),
        &links(),
    );
    match shot {
        Err(GateError::OpaqueSubcircuit { name }) => assert_eq!(name, "circuit-a"),
        _ => panic!("expected an opaque subcircuit"),
    }
    let cu1 = run_instruction_par(
        &mut state,
        &gate("remote_cu1"),
        2,
        &mut cbits,
        &mut rng,
        kernels(),
        &links(),
    );
    assert!(matches!(cu1, Err(GateError::SymbolicRemoteCu1)));
    assert_eq!(state, ground_state(2));
}

fn settings(truncation: bool, branching: bool, sampling: TerminalSamplingMode) -> ShotSettings {
    ShotSettings { kernels: kernels(), truncation, branching, sampling }
}

#[test]
fn shots_of_a_certain_circuit() {
    let list = vec![
        Instruction::X { qubit: 2 },
        Instruction::Cx { control: 2, target: 0 },
        Instruction::Measure { qubit: 0, cbit: 0 },
        Instruction::Measure { qubit: 1, cbit: 1 },
        Instruction::Measure { qubit: 2, cbit: 2 },
    ];
    let sim = StatevectorSimulator::new(Some(4), false);
    for branching in [false, true] {
        for truncation in [false, true] {
            for mode in [
                TerminalSamplingMode::Auto,
                TerminalSamplingMode::Marginal,
                TerminalSamplingMode::FullState,
            ] {
                let report = sim
                    .simulate_shots(
                        &circuit(3, 3, list.clone()),
                        40,
                        0,
                        settings(truncation, branching, mode),
                        &links(),
                    )
                    .ok()
                    .unwrap();
                assert_eq!(report.counts.len(), 1);
                assert_eq!(report.counts.get("101"), Some(&40));
                assert_eq!(report.strategy.is_some(), branching);
                assert!(report.kernels_used);
            }
        }
    }
}

#[test]
fn truncation_removes_qubits_that_do_not_count() {
    let list = vec![
        Instruction::X { qubit: 3 },
        Instruction::H { qubit: 1 },
        Instruction::Cx { control: 3, target: 0 },
        Instruction::Measure { qubit: 0, cbit: 0 },
    ];
    let sim = StatevectorSimulator::new(Some(4), false);
    let report = sim
        .simulate_shots(
            &circuit(4, 1, list),
            10,
            0,
            settings(true, false, TerminalSamplingMode::Auto),
            &links(),
        )
        .ok()
        .unwrap();
    assert_eq!(report.original_num_qubits, 4);
    assert_eq!(report.effective_num_qubits, 2);
    assert_eq!(report.removed_qubits, Some(vec![1, 2]));
    assert_eq!(report.counts.get("1"), Some(&10));
}

#[test]
fn failing_shots_are_errors() {
    let list = vec![Instruction::Gate {
        name: "remote_cu1".to_string(),
        params: vec![],
        qubits: vec![0, 1],
    }];
    let sim = StatevectorSimulator::new(Some(4), false);
    let r = sim.simulate_shots(
        &circuit(2, 1, list),
        2,
        0,
        settings(false, false, TerminalSamplingMode::Auto),
        &links(),
    );
    match r {
        Err(e) => {
            assert!(matches!(e, SimulationError::Gate(GateError::SymbolicRemoteCu1)));
            assert_eq!(
                e.message(),
                "Symbolic 'remote_cu1' cannot be simulated natively. Distribute with lowered=True."
            );
        }
        Ok(_) => panic!("expected an error"),
    }
}

#[test]
fn conditional_shots() {
    let list = vec![
        Instruction::H { qubit: 0 },
        Instruction::Measure { qubit: 0, cbit: 0 },
        Instruction::Conditional {
            condition: Condition { creg_base: 0, creg_size: 1, creg_value: 1 },
            op: Box::new(Instruction::X { qubit: 1 }),
        },
        Instruction::Measure { qubit: 1, cbit: 1 },
    ];
    let sim = StatevectorSimulator::new(Some(21), false);
    let report = sim
        .simulate_shots(
            &circuit(2, 2, list),
            100,
            0,
            settings(true, true, TerminalSamplingMode::Auto),
            &links(),
        )
        .ok()
        .unwrap();
    assert_eq!(report.strategy, None);
    let zeros = *report.counts.get("00").unwrap();
    let ones = *report.counts.get("11").unwrap();
    assert_eq!(zeros + ones, 100);
}

#[test]
fn relevance_is_traced_backwards() {
    let list = vec![
        Instruction::H { qubit: 0 },
        Instruction::Cx { control: 0, target: 1 },
        Instruction::X { qubit: 2 },
        Instruction::Measure { qubit: 1, cbit: 0 },
        Instruction::Cx { control: 1, target: 3 },
    ];
    let c = circuit(4, 1, list);
    assert_eq!(count_relevant_qubits(&c, 4), vec![true, true, false, false]);
    match build_count_qubit_truncation(&c) {
        Err(e) => {
            assert_eq!(e, TruncationError::PartiallyRetained);
            assert_eq!(
                e.message(),
                "qubit truncation found a partially retained instruction; relevance analysis is too aggressive"
            );
        }
        Ok(_) => panic!("expected an error"),
    }
}

#[test]
fn circuits_without_superfluous_qubits_stay() {
    let list = vec![Instruction::Measure { qubit: 0, cbit: 0 }];
    assert!(matches!(build_count_qubit_truncation(&circuit(1, 1, list)), Ok(None)));
    assert!(matches!(build_count_qubit_truncation(&circuit(0, 0, vec![])), Ok(None)));
    let list = vec![
        Instruction::Measure { qubit: 2, cbit: 0 },
        Instruction::X { qubit: 0 },
    ];
    let t = build_count_qubit_truncation(&circuit(3, 1, list)).unwrap().unwrap();
    assert_eq!(t.removed_qubits, vec![0, 1]);
    assert_eq!(t.circuit.instructions.len(), 1);
    assert!(matches!(
        t.circuit.instructions[0],
        Instruction::Measure { qubit: 0, cbit: 0 }
    ));
    assert_eq!(t.circuit.num_qubits(), 1);
}

#[test]
fn renumbering_qubits() {
    let remap = [Some(1), None, Some(0)];
    let mut inst = Instruction::Swap { a: 0, b: 2 };
    assert_eq!(remap_instruction_qubits_in_place(&mut inst, &remap), Ok(()));
    assert!(matches!(inst, Instruction::Swap { a: 1, b: 0 }));
    let mut inst = Instruction::X { qubit: 1 };
    let e = remap_instruction_qubits_in_place(&mut inst, &remap).unwrap_err();
    assert_eq!(e, TruncationError::NotRetained { qubit: 1 });
    assert_eq!(e.message(), "qubit index 1 was not retained by truncation");

    let kept = remap_instruction_for_truncation(&Instruction::H { qubit: 2 }, &remap);
    assert!(matches!(kept, Ok(Some(Instruction::H { qubit: 0 }))));
    let gone = remap_instruction_for_truncation(&Instruction::H { qubit: 1 }, &remap);
    assert!(matches!(gone, Ok(None)));
    let outside = remap_instruction_for_truncation(&Instruction::H { qubit: 9 }, &remap);
    match outside {
        Err(e) => assert_eq!(e.message(), "qubit index 9 is outside the circuit width"),
        Ok(_) => panic!("expected an error"),
    }
}

#[test]
fn sampling_follows_the_distribution() {
    let cdf = cumulative_distribution(&[re(0.25), re(0.0), re(0.75)]);
    assert_eq!(cdf, vec![re(0.25), re(0.25), re(1.0)]);
    let mut rng = ChaCha8Rng::seed_from_u64(6);
    let mut again = ChaCha8Rng::seed_from_u64(6);
    let mut tally = [0usize; 3];
    for _ in 0..400 {
        tally[sample_cdf(&cdf, &mut rng)] += 1;
    }
    assert_eq!(tally[1], 0);
    assert!(60 < tally[0] && tally[0] < 140);
    let mut pairs = sample_cdf_counts(&cdf, 400, &mut again);
    pairs.sort();
    assert_eq!(pairs, vec![(0, tally[0]), (2, tally[2])]);
}

#[test]
fn counts_of_some_qubits() {
    let mut state = vec![re(0.0); 8];
    state[0b110] = re(1.0);
    let mut rng = ChaCha8Rng::seed_from_u64(6);
    let all = sample_counts(&state, 3, 9, &mut rng, None);
    assert_eq!(all.get("110"), Some(&9));
    let some = sample_counts(&state, 3, 9, &mut rng, Some(&[0, 2]));
    assert_eq!(some.get("01"), Some(&9));
    assert_eq!(all_qubits(3), vec![2, 1, 0]);
}

#[test]
fn no_list_samples_all_qubits() {
    let state: Vec<C> = (0..8).map(|i| C::new(0.1 * i as f64, 0.05)).collect();
    let mut rng = ChaCha8Rng::seed_from_u64(21);
    let mut again = rng.clone();
    let without = sample_counts(&state, 3, 200, &mut rng, None);
    let with = sample_counts(&state, 3, 200, &mut again, Some(&[2, 1, 0]));
    assert!(without.len() > 1);
    assert_eq!(without.len(), with.len());
    for (key, count) in &without.entries {
        assert_eq!(with.get(key), Some(count));
        assert!(*count > 0);
        assert_eq!(key.len(), 3);
    }
    assert_eq!(rng, again);
}

#[test]
fn probabilities_of_all_qubits_are_squared_moduli() {
    let sv: Vec<C> = (0..4).map(|i| C::new(0.1 * i as f64, 0.3)).collect();
    let result = SimulationResult {
        sv: sv.clone(),
        num_qubits: 2,
        cbits: HashMap::new(),
        calls: CallTally { one_qubit: 0, n_qubit: 0, measure: 0 },
        times: CallTimes::none(),
    };
    let read = result.probabilities(None);
    assert_eq!(read.len(), 4);
    for (basis, probability) in read {
        assert_eq!(probability, re(sv[basis].norm_sqr()));
    }
}

#[test]
fn calls_are_timed_on_demand() {
    let c = circuit(
        2,
        1,
        vec![Instruction::H { qubit: 0 }, Instruction::Measure { qubit: 0, cbit: 0 }],
    );
    let plain = StatevectorSimulator::new(Some(3), false)
        .simulate(&c, 0, kernels(), &links())
        .ok()
        .unwrap();
    assert_eq!(plain.times, CallTimes::none());
    let timed = StatevectorSimulator::new(Some(3), true)
        .simulate(&c, 0, kernels(), &links())
        .ok()
        .unwrap();
    assert_eq!(timed.times.n_qubit, 0);
    assert_eq!(timed.sv, plain.sv);
    assert_eq!(timed.calls, plain.calls);
}

#[test]
fn single_runs_and_shots_agree() {
    let list = vec![
        Instruction::H { qubit: 0 },
        Instruction::Cx { control: 0, target: 1 },
        Instruction::Measure { qubit: 1, cbit: 0 },
        Instruction::Gate { name: "circuit-7".to_string(), params: vec![], qubits: vec![0] },
        Instruction::Reset { qubit: 0 },
    ];
    let (mut a, mut b) = (ground_state(2), ground_state(2));
    let mut a_bits: HashMap<usize, i32> = HashMap::new();
    let mut b_bits: HashMap<usize, i32> = HashMap::new();
    let mut a_rng = ChaCha8Rng::seed_from_u64(2);
    let mut b_rng = ChaCha8Rng::seed_from_u64(2);
    for inst in &list {
        let before = (a.clone(), a_bits.clone());
        let single =
            run_instruction(&mut a, inst, 2, &mut a_bits, &mut a_rng, kernels(), &links());
        let shot =
            run_instruction_par(&mut b, inst, 2, &mut b_bits, &mut b_rng, kernels(), &links());
        assert_eq!(single.is_err(), shot.is_err());
        if single.is_err() {
            assert_eq!((&a, &a_bits), (&before.0, &before.1));
            assert_eq!((&b, &b_bits), (&before.0, &before.1));
        }
        assert_eq!(a_bits, b_bits);
        assert_eq!(a_rng, b_rng);
    }
}

#[test]
fn results_can_be_read() {
    let s = 0.5_f64.sqrt();
    let result = SimulationResult {
        sv: vec![re(s), re(0.0), re(0.0), C::new(0.0, s)],
        num_qubits: 2,
        cbits: HashMap::new(),
        calls: CallTally { one_qubit: 0, n_qubit: 0, measure: 0 },
        times: CallTimes::none(),
    };
    let all = result.probabilities(None);
    assert_eq!(all.len(), 2);
    assert_eq!(all[0].0, 0);
    assert_eq!(all[1].0, 3);
    assert!((all[1].1.re - 0.5).abs() < 1e-12);
    let one = result.probabilities(Some(&[1]));
    assert_eq!(one.len(), 2);
    assert!((one[0].1.re - 0.5).abs() < 1e-12);
    assert!((result.fidelity(&result.sv).re - 1.0).abs() < 1e-12);
    assert!((result.fidelity(&[re(1.0), re(0.0), re(0.0), re(0.0)]).re - 0.5).abs() < 1e-12);
    let mut rng = ChaCha8Rng::seed_from_u64(6);
    let counts = result.counts(50, None, &mut rng);
    let zeros = *counts.get("00").unwrap();
    assert_eq!(zeros + *counts.get("11").unwrap(), 50);
}

#[test]
fn kernels_are_known_by_instruction() {
    assert!(instruction_uses_statevector_two_qubit_kernel(&Instruction::Cx {
        control: 0,
        target: 1
    }));
    assert!(!instruction_uses_statevector_two_qubit_kernel(&Instruction::Rxx {
        a: 0,
        b: 1,
        theta: re(0.1)
    }));
    assert!(!instruction_uses_statevector_two_qubit_kernel(&Instruction::H { qubit: 0 }));
}
