use std::collections::HashMap;

use dqsim::circuit::{Circuit, Register};
use dqsim::instruction::{Instruction, Kind};
use dqsim::stabilizer::{multiply_rows, pauli_phase, StabilizerState};
use dqsim::stabilizer_shots::{
    run_shot_instructions, run_stabilizer_shot, run_stabilizer_shots, seed_of_shot,
    StabilizerSimulator,
};
use rand::SeedableRng;
use rand_chacha::ChaCha8Rng;

fn circuit(qubits: usize, cbits: usize, instructions: Vec<Instruction>) -> Circuit {
    Circuit {
        qregs: vec![Register { name: "q".to_string(), size: qubits, base: 0 }],
        cregs: vec![Register { name: "c".to_string(), size: cbits, base: 0 }],
        instructions,
    }
}

fn measure_all(n: usize) -> Vec<Instruction> {
    (0..n).map(|q| Instruction::Measure { qubit: q, cbit: q }).collect()
}

#[test]
fn the_ground_state_measures_zero() {
    let mut rng = ChaCha8Rng::seed_from_u64(0);
    let mut state = StabilizerState::new(3);
    for q in 0..3 {
        assert_eq!(state.measure_qubit(q, &mut rng), 0);
    }
}

#[test]
fn h_undoes_itself() {
    let mut state = StabilizerState::new(2);
    state.apply_cnot(0, 1);
    state.apply_s(0);
    let before = state.tableau.clone();
    state.apply_h(0);
    assert_ne!(state.tableau, before);
    state.apply_h(0);
    assert_eq!(state.tableau, before);
}

#[test]
fn four_s_do_nothing() {
    let mut state = StabilizerState::new(1);
    state.apply_h(0);
    let before = state.tableau.clone();
    for _ in 0..4 {
        state.apply_s(0);
    }
    assert_eq!(state.tableau, before);
}

#[test]
fn cnot_undoes_itself() {
    let mut state = StabilizerState::new(2);
    state.apply_h(0);
    state.apply_s(1);
    let before = state.tableau.clone();
    state.apply_cnot(0, 1);
    state.apply_cnot(0, 1);
    assert_eq!(state.tableau, before);
}

#[test]
fn a_second_measurement_repeats_the_first() {
    for seed in 0..32 {
        let mut rng = ChaCha8Rng::seed_from_u64(seed);
        let mut state = StabilizerState::new(2);
        state.apply_h(0);
        state.apply_cnot(0, 1);
        let first = state.measure_qubit(0, &mut rng);
        assert_eq!(state.measure_qubit(1, &mut rng), first);
        assert_eq!(state.measure_qubit(0, &mut rng), first);
    }
}

#[test]
fn random_outcomes_follow_the_seed() {
    let mut ones = 0;
    for seed in 0..200 {
        let mut rng = ChaCha8Rng::seed_from_u64(seed);
        let mut again = ChaCha8Rng::seed_from_u64(seed);
        let mut a = StabilizerState::new(1);
        a.apply_h(0);
        let mut b = StabilizerState::new(1);
        b.apply_h(0);
        let outcome = a.measure_qubit(0, &mut rng);
        assert_eq!(outcome, b.measure_qubit(0, &mut again));
        ones += outcome as usize;
    }
    assert!(60 < ones && ones < 140);
}

#[test]
fn phases_of_products() {
    assert_eq!(pauli_phase(false, false, true, true), 0);
    assert_eq!(pauli_phase(true, false, false, true), -1);
    assert_eq!(pauli_phase(true, true, true, false), -1);
    assert_eq!(pauli_phase(true, true, false, true), 1);
    assert_eq!(pauli_phase(true, false, true, true), 1);
    assert_eq!(pauli_phase(false, true, true, false), 1);
    assert_eq!(pauli_phase(false, true, true, true), -1);
    assert_eq!(pauli_phase(true, true, true, true), 0);
}

#[test]
fn x_flips_and_z_does_not() {
    let mut list = vec![
        Instruction::X { qubit: 0 },
        Instruction::Z { qubit: 1 },
        Instruction::Y { qubit: 2 },
    ];
    list.extend(measure_all(3));
    let (key, measurements, _) = run_stabilizer_shot(&circuit(3, 3, list), 4, true).unwrap();
    assert_eq!(key, "101");
    assert_eq!(measurements, 3);
}

#[test]
fn reset_gives_zero() {
    for seed in 0..10 {
        let mut list = vec![Instruction::H { qubit: 0 }, Instruction::Reset { qubit: 0 }];
        list.extend(measure_all(1));
        let (key, ..) = run_stabilizer_shot(&circuit(1, 1, list), seed, false).unwrap();
        assert_eq!(key, "0");
    }
}

#[test]
fn entangled_shots_agree() {
    let mut list = vec![
        Instruction::H { qubit: 0 },
        Instruction::Cx { control: 0, target: 1 },
        Instruction::Cx { control: 1, target: 2 },
    ];
    list.extend(measure_all(3));
    let counts = run_stabilizer_shots(&circuit(3, 3, list), 100, 12, false).unwrap().counts;
    let zeros = *counts.get("000").unwrap();
    let ones = *counts.get("111").unwrap();
    assert_eq!(zeros + ones, 100);
    assert!(zeros > 20 && ones > 20);
}

#[test]
fn other_gates_are_unsupported() {
    let list = vec![Instruction::H { qubit: 0 }, Instruction::T { qubit: 0 }];
    let sim = StabilizerSimulator::new(Some(1));
    match sim.simulate_shots(&circuit(1, 1, list), 3, false, 0) {
        Err(e) => {
            assert_eq!(e.instruction.kind_of(), Kind::T);
            assert_eq!(e.instruction.qubits(), vec![0]);
        }
        Ok(_) => panic!("expected an error"),
    }
}

#[test]
fn instructions_write_classical_bits() {
    let mut state = StabilizerState::new(2);
    let mut cbits: HashMap<usize, i32> = HashMap::new();
    let mut rng = ChaCha8Rng::seed_from_u64(3);
    let list = vec![
        Instruction::X { qubit: 1 },
        Instruction::Barrier,
        Instruction::Measure { qubit: 1, cbit: 5 },
    ];
    let followed =
        run_shot_instructions(&mut state, &list, &mut cbits, &mut rng, true).unwrap();
    assert_eq!(followed.0, 1);
    assert_eq!(cbits.get(&5), Some(&1));
    let plain = run_shot_instructions(&mut state, &list, &mut cbits, &mut rng, false).unwrap();
    assert_eq!(plain, (0, 0));
    assert_eq!(cbits.get(&5), Some(&0));
}

#[test]
fn rows_are_multiplied_as_operators() {
    let source = vec![true, false, false, true, false];
    let target = vec![false, true, true, false, false];
    assert_eq!(multiply_rows(&source, &target, 2), vec![true, true, true, true, false]);
    assert_eq!(multiply_rows(&target, &source, 2), vec![true, true, true, true, false]);
    let xx = vec![true, true, false, false, false];
    let zz = vec![false, false, true, true, false];
    assert_eq!(multiply_rows(&xx, &zz, 2), vec![true, true, true, true, true]);
    assert_eq!(multiply_rows(&zz, &xx, 2), vec![true, true, true, true, true]);
}

fn controlled_z(list: &mut Vec<Instruction>, control: usize, target: usize) {
    list.push(Instruction::H { qubit: target });
    list.push(Instruction::Cx { control, target });
    list.push(Instruction::H { qubit: target });
}

#[test]
fn a_triangle_of_qubits_has_even_parity_in_y() {
    let mut list: Vec<Instruction> = (0..3).map(|qubit| Instruction::H { qubit }).collect();
    controlled_z(&mut list, 0, 1);
    controlled_z(&mut list, 0, 2);
    controlled_z(&mut list, 1, 2);
    list.push(Instruction::H { qubit: 0 });
    list.push(Instruction::Measure { qubit: 0, cbit: 0 });
    for qubit in 1..3 {
        list.push(Instruction::Sdg { qubit });
        list.push(Instruction::H { qubit });
    }
    list.push(Instruction::Cx { control: 1, target: 2 });
    list.push(Instruction::Measure { qubit: 2, cbit: 1 });
    let c = circuit(3, 2, list);
    let mut seen = [false, false];
    for seed in 0..64 {
        let (key, ..) = run_stabilizer_shot(&c, seed, false).unwrap();
        assert!(key == "00" || key == "01", "{key}");
        seen[(key == "01") as usize] = true;
    }
    assert_eq!(seen, [true, true]);
}

#[test]
fn profiles_and_repetitions_do_not_change_counts() {
    let mut list = vec![
        Instruction::H { qubit: 0 },
        Instruction::Cx { control: 0, target: 1 },
        Instruction::H { qubit: 2 },
        Instruction::Reset { qubit: 3 },
    ];
    list.extend(measure_all(4));
    let c = circuit(4, 4, list);
    let sim = StabilizerSimulator::new(Some(77));
    let plain = sim.simulate_shots(&c, 50, false, 0).unwrap();
    let again = sim.simulate_shots(&c, 50, false, 1).unwrap();
    let profiled = sim.simulate_shots(&c, 50, true, 2).unwrap();
    assert_eq!(plain.counts.entries, again.counts.entries);
    assert_eq!(plain.counts.entries, profiled.counts.entries);
    assert_eq!((plain.measure_calls, plain.measure_nanos), (0, 0));
    assert_eq!(profiled.measure_calls, 250);
    assert_eq!(plain.counts.entries.iter().map(|(_, count)| count).sum::<usize>(), 50);
    for (key, count) in &plain.counts.entries {
        assert_eq!(key.len(), 4);
        assert!(key.chars().all(|digit| digit == '0' || digit == '1'));
        assert!(*count > 0);
    }
}

#[test]
fn seeds_wrap_around() {
    assert_eq!(seed_of_shot(u64::MAX, 0), u64::MAX);
    assert_eq!(seed_of_shot(u64::MAX, 2), 1);
    assert_eq!(StabilizerSimulator::new(Some(4)).base_seed(9), 4);
    assert_eq!(StabilizerSimulator::new(None).base_seed(9), 9);
}
