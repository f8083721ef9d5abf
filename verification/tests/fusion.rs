use std::collections::HashMap;

use dqsim::circuit::Circuit;
use dqsim::fusion::{fuse_circuit, fuse_pblock_entries, FusedInstruction, FusedPBlockEntry};
use dqsim::gate_matrix::{gate_matrix_1q, matmul2x2};
use dqsim::instruction::Instruction;
use dqsim::terminal::{
    sample_terminal_full_state, sample_terminal_marginal, terminal_basis_key,
    terminal_measurement_plan, terminal_measurement_strategy, terminal_measurement_uses_full_state,
    terminal_sample_key, terminal_sampling_layout, TerminalMeasurement, TerminalMeasurementPlan,
    TerminalSamplingMode,
};
use num_complex::Complex64;

type C = Complex64;

fn plan(measurements: &[(usize, usize)]) -> TerminalMeasurementPlan {
    TerminalMeasurementPlan {
        measurements: measurements
            .iter()
            .map(|&(qubit, cbit)| TerminalMeasurement { qubit, cbit })
            .collect(),
    }
}

fn assert_matrix_close(actual: &[[C; 2]; 2], expected: &[[C; 2]; 2]) {
    for row in 0..2 {
        for col in 0..2 {
            assert!(
                (actual[row][col] - expected[row][col]).norm() < 1e-10,
                "matrix mismatch at [{row}][{col}]: {:?} != {:?}",
                actual[row][col],
                expected[row][col]
            );
        }
    }
}

#[test]
fn terminal_basis_key_maps_qubits_to_classical_bits() {
    let plan = plan(&[(0, 2), (2, 0)]);

    assert_eq!(terminal_basis_key(0b101, &plan, 3), "101");
    assert_eq!(terminal_basis_key(0b001, &plan, 3), "100");
}

#[test]
fn full_state_terminal_sampler_preserves_certain_basis_state() {
    let plan = plan(&[(0, 0), (1, 1), (2, 2)]);
    let mut state = vec![C::new(0.0, 0.0); 8];
    state[0b101] = C::new(1.0, 0.0);

    let counts = sample_terminal_full_state(&state, 3, &plan, 32, 7);

    assert_eq!(counts.len(), 1);
    assert_eq!(counts.get("101"), Some(&32));
}

#[test]
fn fuse_circuit_elides_identity_single_qubit_run() {
    let instructions = vec![Instruction::X { qubit: 0 }, Instruction::X { qubit: 0 }];

    let fused = fuse_circuit(&instructions);

    assert_eq!(fused.len(), 0);
}

#[test]
fn fuse_circuit_flushes_before_touching_gate() {
    let instructions = vec![
        Instruction::H { qubit: 0 },
        Instruction::X { qubit: 0 },
        Instruction::Cx { control: 0, target: 1 },
        Instruction::Z { qubit: 1 },
    ];

    let fused = fuse_circuit(&instructions);

    assert_eq!(fused.len(), 3);
    match &fused[0] {
        FusedInstruction::Fused1Q { qubit, matrix } => {
            assert_eq!(*qubit, 0);
            let (_, h) = gate_matrix_1q(&instructions[0]).unwrap();
            let (_, x) = gate_matrix_1q(&instructions[1]).unwrap();
            assert_matrix_close(matrix, &matmul2x2(x, h));
        }
        _ => panic!("expected fused 1Q instruction before CX"),
    }
    assert!(matches!(fused[1], FusedInstruction::Original(Instruction::Cx { .. })));
    assert!(matches!(fused[2], FusedInstruction::Fused1Q { qubit: 1, .. }));
}

#[test]
fn fusion_keeps_other_instructions_in_order() {
    let instructions = vec![
        Instruction::H { qubit: 2 },
        Instruction::Barrier,
        Instruction::Measure { qubit: 0, cbit: 0 },
        Instruction::T { qubit: 1 },
        Instruction::Swap { a: 1, b: 2 },
    ];
    let fused = fuse_circuit(&instructions);
    assert_eq!(fused.len(), 5);
    assert!(matches!(fused[0], FusedInstruction::Original(Instruction::Barrier)));
    assert!(matches!(fused[1], FusedInstruction::Original(Instruction::Measure { .. })));
    assert!(matches!(fused[2], FusedInstruction::Fused1Q { qubit: 1, .. }));
    assert!(matches!(fused[3], FusedInstruction::Fused1Q { qubit: 2, .. }));
    assert!(matches!(fused[4], FusedInstruction::Original(Instruction::Swap { .. })));
}

#[test]
fn block_entries_are_fused_across_nodes() {
    let mut nodes: HashMap<usize, Circuit> = HashMap::new();
    nodes.insert(
        0,
        Circuit {
            qregs: vec![],
            cregs: vec![],
            instructions: vec![
                Instruction::H { qubit: 0 },
                Instruction::Cx { control: 0, target: 1 },
            ],
        },
    );
    nodes.insert(
        4,
        Circuit {
            qregs: vec![],
            cregs: vec![],
            instructions: vec![Instruction::S { qubit: 1 }],
        },
    );
    let fused = fuse_pblock_entries(&[(0, 0, 0), (1, 4, 0), (2, 0, 1)], &nodes);
    assert_eq!(fused.len(), 3);
    assert!(matches!(fused[0], FusedPBlockEntry::Fused1Q { qubit: 0, .. }));
    assert!(matches!(fused[1], FusedPBlockEntry::Fused1Q { qubit: 1, .. }));
    assert!(matches!(fused[2], FusedPBlockEntry::Original { node: 0, local_idx: 1 }));
}

#[test]
fn entries_are_fused_as_their_instructions_are() {
    let instructions = vec![
        Instruction::H { qubit: 0 },
        Instruction::T { qubit: 0 },
        Instruction::S { qubit: 1 },
        Instruction::Cx { control: 0, target: 1 },
        Instruction::X { qubit: 1 },
    ];
    let whole = Circuit { qregs: vec![], cregs: vec![], instructions: instructions.clone() };
    let nodes: HashMap<usize, Circuit> = HashMap::from([(3, whole)]);
    let fused = fuse_circuit(&instructions);
    for start in [0i64, 50] {
        let entries: Vec<(i64, usize, usize)> =
            (0..5usize).map(|i| (start - 7 * i as i64, 3, i)).collect();
        let listed = fuse_pblock_entries(&entries, &nodes);
        assert_eq!(fused.len(), listed.len());
        for (piece, entry) in fused.iter().zip(&listed) {
            match (piece, entry) {
                (
                    FusedInstruction::Original(inst),
                    FusedPBlockEntry::Original { node: 3, local_idx },
                ) => assert_eq!(inst.kind_of(), instructions[*local_idx].kind_of()),
                (
                    FusedInstruction::Fused1Q { qubit: a, matrix: m },
                    FusedPBlockEntry::Fused1Q { qubit: b, matrix: k },
                ) => {
                    assert_eq!(a, b);
                    assert_matrix_close(m, k);
                }
                _ => panic!("pieces differ"),
            }
        }
    }
}

#[test]
fn measurements_at_the_end_can_be_put_off() {
    let instructions = vec![
        Instruction::H { qubit: 0 },
        Instruction::Measure { qubit: 0, cbit: 1 },
        Instruction::Cx { control: 1, target: 2 },
        Instruction::Measure { qubit: 2, cbit: 0 },
    ];
    let fused = fuse_circuit(&instructions);
    let plan = terminal_measurement_plan(&fused).unwrap();
    assert_eq!(
        plan.measurements,
        vec![
            TerminalMeasurement { qubit: 0, cbit: 1 },
            TerminalMeasurement { qubit: 2, cbit: 0 }
        ]
    );
}

#[test]
fn measurements_in_the_middle_cannot_be_put_off() {
    let later_gate = vec![
        Instruction::Measure { qubit: 0, cbit: 0 },
        Instruction::Cx { control: 0, target: 1 },
    ];
    let twice = vec![
        Instruction::Measure { qubit: 0, cbit: 0 },
        Instruction::Measure { qubit: 1, cbit: 0 },
    ];
    let reset = vec![
        Instruction::Measure { qubit: 0, cbit: 0 },
        Instruction::Reset { qubit: 1 },
    ];
    let none = vec![Instruction::H { qubit: 0 }];
    for instructions in [later_gate, twice, reset, none] {
        assert!(terminal_measurement_plan(&fuse_circuit(&instructions)).is_none());
    }
}

#[test]
fn sampled_qubits_are_listed_once() {
    let plan = plan(&[(2, 0), (0, 1), (2, 2)]);
    let layout = terminal_sampling_layout(&plan);
    assert_eq!(layout.sampled_qubits, vec![2, 0]);
    assert_eq!(layout.measurement_indices, vec![0, 1, 0]);
    assert_eq!(terminal_sample_key(0b10, 2, &plan, &layout.measurement_indices, 3), "101");
    assert_eq!(terminal_sample_key(0b01, 2, &plan, &layout.measurement_indices, 3), "010");
}

#[test]
fn sampling_modes_choose_the_state() {
    let plan = plan(&[(0, 0)]);
    let layout = terminal_sampling_layout(&plan);
    assert!(terminal_measurement_uses_full_state(&layout, 3, TerminalSamplingMode::FullState));
    assert!(!terminal_measurement_uses_full_state(&layout, 3, TerminalSamplingMode::Marginal));
    assert_eq!(
        terminal_measurement_strategy(&plan, 3, TerminalSamplingMode::FullState),
        "terminal_measurement_full_state_batch"
    );
    assert_eq!(
        terminal_measurement_strategy(&plan, 3, TerminalSamplingMode::Marginal),
        "terminal_measurement_marginal_batch"
    );
}

#[test]
fn marginal_sampler_preserves_certain_basis_state() {
    let plan = plan(&[(2, 0), (1, 1)]);
    let layout = terminal_sampling_layout(&plan);
    let mut state = vec![C::new(0.0, 0.0); 8];
    state[0b101] = C::new(0.0, 1.0);
    let counts = sample_terminal_marginal(&state, 2, &plan, &layout, 3, 20, 3);
    assert_eq!(counts.len(), 1);
    assert_eq!(counts.get("01"), Some(&20));
}
