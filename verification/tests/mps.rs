use std::collections::HashMap;

use dqsim::circuit::{Circuit, Register};
use dqsim::gate_error::GateError;
use dqsim::gate_matrix::fixed_gate;
use dqsim::gates::{controlled_4, swap_4, LinkGates};
use dqsim::instruction::{Condition, Instruction, Kind};
use dqsim::mps::{Mps, MpsConfig};
use dqsim::mps_counters::MpsProfileCounters;
use dqsim::mps_kernel::{
    apply_mps_2q_kernel, classify_diagonal_2q, cnot_kernel, cy_kernel, cz_kernel, deviates,
    factor_product_state_2x2, first_entry, is_close_product, is_effectively_zero,
    reverse_2q_kernel_order, reverse_2q_order, reverse_basis_index, swap_kernel, Matrix4,
    MpsTwoQKernel, MpsTwoQKernelMode,
};
use dqsim::mps_pair::{
    finish_adjacent_2q, pair_theta, product_pair_update, try_rank1_factorization, update_pair,
};
use dqsim::mps_routing::{
    mps_instruction_qubit_pair, score_routing_candidate, score_routing_lookahead,
    simulate_logical_routing_swap, simulate_routing_direction, MpsRoutingMode, RoutingDirection,
};
use dqsim::mps_run::run_instruction;
use dqsim::mps_shots::{
    mps_terminal_measurement_plan, sample_terminal_sequential_full_state, MpsRunSummary,
    MpsSimulator,
};
use dqsim::mps_state::outcome_share;
use dqsim::mps_svd::{kept, order_factors, scale_for, truncate_factors};
use dqsim::mps_tensor::{tabulate, Tensor};
use dqsim::terminal::{TerminalMeasurement, TerminalMeasurementPlan};
use num_complex::Complex64;
use rand::SeedableRng;
use rand_chacha::ChaCha8Rng;

type C = Complex64;

fn re(value: f64) -> C {
    C::new(value, 0.0)
}

fn config(routing_mode: MpsRoutingMode, fast_kernel_mode: MpsTwoQKernelMode) -> MpsConfig {
    MpsConfig {
        routing_mode,
        fast_kernel_mode,
        product_permutation_fast_max_shots: 128,
        dense_fast_min_work_items: 4,
        lookahead_depth: 8,
    }
}

fn plain_config() -> MpsConfig {
    config(MpsRoutingMode::Restore, MpsTwoQKernelMode::Auto)
}

fn threshold() -> C {
    re(1e-12)
}

fn rows(dim: usize) -> Vec<Vec<C>> {
    (0..dim)
        .map(|r| (0..dim).map(|c| if r == c { re(1.0) } else { re(0.0) }).collect())
        .collect()
}

/// The matrix that turns two zeros into a pair of equal, entangled qubits.
fn bell() -> Matrix4 {
    let s = 0.5_f64.sqrt();
    [
        [re(s), re(0.0), re(s), re(0.0)],
        [re(0.0), re(s), re(0.0), re(s)],
        [re(0.0), re(s), re(0.0), re(-s)],
        [re(s), re(0.0), re(-s), re(0.0)],
    ]
}

fn links() -> LinkGates {
    LinkGates {
        phi_plus: bell(),
        psi_minus: swap_4(),
        psi_plus: swap_4(),
        rccx: rows(8),
        rc3x: rows(16),
    }
}

fn circuit(qubits: usize, cbits: usize, instructions: Vec<Instruction>) -> Circuit {
    Circuit {
        qregs: vec![Register { name: "q".to_string(), size: qubits, base: 0 }],
        cregs: vec![Register { name: "c".to_string(), size: cbits, base: 0 }],
        instructions,
    }
}

fn assert_close(actual: &[C], expected: &[C]) {
    assert_eq!(actual.len(), expected.len());
    for (i, (a, e)) in actual.iter().zip(expected).enumerate() {
        assert!((a - e).norm() < 1e-9, "amplitude {i}: {a} != {e}");
    }
}

fn amplitudes(instructions: &[Instruction], qubits: usize, config: MpsConfig) -> (Vec<C>, Mps) {
    let mut mps = Mps::new(qubits, None, threshold(), 1, config);
    let mut cbits: HashMap<usize, i32> = HashMap::new();
    let mut rng = ChaCha8Rng::seed_from_u64(1);
    for (i, inst) in instructions.iter().enumerate() {
        let res = run_instruction(
            &mut mps,
            inst,
            &instructions[i + 1..],
            &mut cbits,
            &mut rng,
            &links(),
        );
        assert!(res.is_ok());
    }
    (mps.to_statevector(), mps)
}

fn ghz(n: usize) -> Vec<Instruction> {
    let mut list = vec![Instruction::H { qubit: 0 }];
    for target in 1..n {
        list.push(Instruction::Cx { control: 0, target });
    }
    list
}

#[test]
fn tensor_entries_stand_row_by_row() {
    let mut t = Tensor::zero(2, 3);
    assert_eq!(t.data.len(), 12);
    assert_eq!(t.idx(1, 0, 2), 8);
    t.set(1, 0, 2, re(7.0));
    assert_eq!(t.get(1, 0, 2), re(7.0));
    assert_eq!(t.data[8], re(7.0));
    assert_eq!(t.get(1, 1, 2), re(0.0));
    let u = tabulate(1, 2, |l, s, r| re((100 * l + 10 * s + r) as f64));
    assert_eq!(u.data, vec![re(0.0), re(1.0), re(10.0), re(11.0)]);
}

#[test]
fn a_new_state_is_all_zero() {
    let mps = Mps::new(3, Some(4), threshold(), 0, plain_config());
    assert_eq!(mps.total_shots, 1);
    assert_eq!(mps.logical_to_position, vec![0, 1, 2]);
    assert_eq!(mps.counters, MpsProfileCounters::default());
    assert_eq!(mps.counters.max_observed_bond_dimension, 1);
    let state = mps.to_statevector();
    assert_eq!(state[0], re(1.0));
    assert!(state[1..].iter().all(|a| *a == re(0.0)));
}

#[test]
fn one_qubit_gates_act_on_their_qubit() {
    let (state, _) = amplitudes(
        &[Instruction::X { qubit: 1 }, Instruction::S { qubit: 1 }],
        2,
        plain_config(),
    );
    assert_close(&state, &[re(0.0), re(0.0), C::new(0.0, 1.0), re(0.0)]);
}

#[test]
fn all_modes_prepare_the_same_state() {
    let mut list = ghz(4);
    list.push(Instruction::T { qubit: 3 });
    list.push(Instruction::Cz { control: 3, target: 0 });
    list.push(Instruction::Cy { control: 2, target: 0 });
    list.push(Instruction::Swap { a: 3, b: 1 });
    list.push(Instruction::Rxx { a: 0, b: 3, theta: re(0.7) });
    list.push(Instruction::Crz { control: 1, target: 3, lam: re(0.3) });
    let (expected, _) = amplitudes(&list, 4, plain_config());
    let norm: f64 = expected.iter().map(|a| a.norm_sqr()).sum();
    assert!((norm - 1.0).abs() < 1e-9);
    for routing in [MpsRoutingMode::Restore, MpsRoutingMode::Lazy, MpsRoutingMode::Lookahead] {
        for kernels in [MpsTwoQKernelMode::Off, MpsTwoQKernelMode::Auto, MpsTwoQKernelMode::Force] {
            let (state, mps) = amplitudes(&list, 4, config(routing, kernels));
            assert_close(&state, &expected);
            for (logical, position) in mps.logical_to_position.iter().enumerate() {
                assert_eq!(mps.position_to_logical[*position], logical);
            }
            if routing == MpsRoutingMode::Restore {
                assert_eq!(mps.position_to_logical, vec![0, 1, 2, 3]);
            }
        }
    }
}

#[test]
fn restoring_costs_swaps_both_ways() {
    let list = vec![Instruction::Cx { control: 0, target: 3 }];
    let (_, mps) = amplitudes(&list, 4, config(MpsRoutingMode::Restore, MpsTwoQKernelMode::Auto));
    assert_eq!(mps.counters.logical_2q_gates, 1);
    assert_eq!(mps.counters.routing_swaps, 4);
    assert_eq!(mps.counters.adjacent_2q_applications, 5);
    assert_eq!(mps.counters.total_routed_distance, 3);
    assert_eq!(mps.counters.max_routed_distance, 3);

    let (_, mps) = amplitudes(&list, 4, config(MpsRoutingMode::Lazy, MpsTwoQKernelMode::Auto));
    assert_eq!(mps.counters.routing_swaps, 2);
    assert_eq!(mps.position_to_logical, vec![0, 3, 1, 2]);
}

#[test]
fn looking_ahead_can_move_the_lower_qubit() {
    let list = vec![
        Instruction::Cx { control: 0, target: 2 },
        Instruction::Cx { control: 2, target: 3 },
        Instruction::Cx { control: 2, target: 3 },
    ];
    let (_, mps) = amplitudes(&list, 4, config(MpsRoutingMode::Lookahead, MpsTwoQKernelMode::Auto));
    assert_eq!(mps.counters.lookahead_decisions, 1);
    assert_eq!(mps.counters.lookahead_flipped_routes, 1);
    assert_eq!(mps.position_to_logical, vec![1, 0, 2, 3]);
}

#[test]
fn bonds_stay_below_the_limit() {
    let mut list = Vec::new();
    for q in 0..6 {
        list.push(Instruction::H { qubit: q });
    }
    for q in 0..5 {
        list.push(Instruction::Crx { control: q, target: q + 1, theta: re(0.9) });
    }
    for q in 0..4 {
        list.push(Instruction::Rzz { a: q, b: q + 2, theta: re(1.1) });
    }
    let mut mps = Mps::new(6, Some(2), threshold(), 1, plain_config());
    let mut cbits: HashMap<usize, i32> = HashMap::new();
    let mut rng = ChaCha8Rng::seed_from_u64(1);
    for (i, inst) in list.iter().enumerate() {
        let res =
            run_instruction(&mut mps, inst, &list[i + 1..], &mut cbits, &mut rng, &links());
        assert!(res.is_ok());
    }
    assert!(mps.counters.max_observed_bond_dimension <= 2);
    for pair in mps.tensors.windows(2) {
        assert_eq!(pair[0].right, pair[1].left);
        assert!(pair[0].right <= 2);
    }
    assert_eq!(mps.tensors[0].left, 1);
    assert_eq!(mps.tensors[5].right, 1);

    let (_, free) = amplitudes(&list, 6, plain_config());
    for (i, t) in free.tensors.iter().enumerate() {
        assert!(t.left <= 1 << i.min(6 - i));
    }
}

#[test]
fn a_gate_on_one_qubit_twice_does_nothing() {
    let mut mps = Mps::new(2, None, threshold(), 1, plain_config());
    assert!(mps.apply_2q(1, 1, &swap_4(), &[]).is_ok());
    assert_eq!(mps.counters, MpsProfileCounters::default());
}

#[test]
fn entangled_pairs_are_decomposed() {
    let (state, mps) = amplitudes(&ghz(2), 2, plain_config());
    let s = 0.5_f64.sqrt();
    assert_close(&state, &[re(s), re(0.0), re(0.0), re(s)]);
    assert_eq!(mps.counters.svd_count, 1);
    assert_eq!(mps.counters.max_observed_bond_dimension, 2);
    assert_eq!(mps.tensors[0].right, 2);
}

#[test]
fn product_pairs_are_split_without_a_decomposition() {
    let list = vec![Instruction::X { qubit: 0 }, Instruction::Cx { control: 0, target: 1 }];
    let (state, mps) = amplitudes(&list, 2, plain_config());
    assert_close(&state, &[re(0.0), re(0.0), re(0.0), re(1.0)]);
    assert_eq!(mps.counters.svd_count, 0);
    assert_eq!(mps.counters.rank1_factorizations, 1);
    assert_eq!(mps.counters.svd_skipped_count, 1);
    assert_eq!(mps.counters.permutation_kernel_applications, 1);
}

#[test]
fn kernels_are_chosen_by_the_number_of_shots() {
    let many = Mps::new(2, None, threshold(), 1000, plain_config());
    let few = Mps::new(2, None, threshold(), 10, plain_config());
    assert!(many.is_product_pair(0));
    assert!(many.should_skip_high_shot_product_pair_with_kernel(0, cnot_kernel()));
    assert!(!many.should_skip_high_shot_product_pair_with_kernel(0, cz_kernel()));
    assert!(!few.should_skip_high_shot_product_pair_with_kernel(0, cnot_kernel()));
    let x = controlled_4(&fixed_gate(Kind::X));
    let z = controlled_4(&fixed_gate(Kind::Z));
    assert!(many.should_skip_high_shot_product_pair_without_classification(0, &x));
    assert!(!many.should_skip_high_shot_product_pair_without_classification(0, &z));
    assert!(!many.should_use_adjacent_2q_fast(0, cnot_kernel()));
    assert!(few.should_use_adjacent_2q_fast(0, cnot_kernel()));
    assert!(!few.should_use_adjacent_2q_fast(0, MpsTwoQKernel::Dense));
    assert!(few.should_use_adjacent_2q_fast(0, cz_kernel()));
    let (kernel, skipped) = many.choose_kernel(0, &x, None);
    assert!(kernel.is_none() && skipped);
    let (kernel, skipped) = few.choose_kernel(0, &x, Some(cnot_kernel()));
    assert!(matches!(kernel, Some(MpsTwoQKernel::Permutation(_))) && !skipped);
}

#[test]
fn matrices_are_classified() {
    let z = controlled_4(&fixed_gate(Kind::Z));
    let y = controlled_4(&fixed_gate(Kind::Y));
    let h = controlled_4(&fixed_gate(Kind::H));
    assert_eq!(
        classify_diagonal_2q(&z),
        Some([re(1.0), re(1.0), re(1.0), re(-1.0)])
    );
    assert!(classify_diagonal_2q(&y).is_none());
    match MpsTwoQKernel::classify(&y) {
        MpsTwoQKernel::Permutation(m) => {
            assert_eq!(m[2], (3, C::new(0.0, -1.0)));
            assert_eq!(m[3], (2, C::new(0.0, 1.0)));
        }
        _ => panic!("expected a permutation"),
    }
    assert!(matches!(MpsTwoQKernel::classify(&z), MpsTwoQKernel::Diagonal(_)));
    assert!(matches!(MpsTwoQKernel::classify(&h), MpsTwoQKernel::Dense));
}

#[test]
fn kernels_act_like_their_matrices() {
    let input = [re(0.1), C::new(0.2, 0.3), re(-0.4), C::new(0.0, 0.5)];
    let cases = [
        (cnot_kernel(), controlled_4(&fixed_gate(Kind::X))),
        (cy_kernel(), controlled_4(&fixed_gate(Kind::Y))),
        (cz_kernel(), controlled_4(&fixed_gate(Kind::Z))),
        (swap_kernel(), swap_4()),
    ];
    for (kernel, mat) in cases {
        let fast = apply_mps_2q_kernel(kernel, &mat, input);
        let dense = apply_mps_2q_kernel(MpsTwoQKernel::Dense, &mat, input);
        assert_close(&fast, &dense);

        let swapped = [input[0], input[2], input[1], input[3]];
        let back = apply_mps_2q_kernel(
            reverse_2q_kernel_order(kernel),
            &reverse_2q_order(&mat),
            swapped,
        );
        for row in 0..4 {
            assert_eq!(back[row], fast[reverse_basis_index(row)]);
        }
        assert_eq!(reverse_2q_order(&reverse_2q_order(&mat)), mat);
    }
}

#[test]
fn small_numbers_count_as_zero() {
    assert!(is_effectively_zero(re(1e-13), re(1e-12)));
    assert!(!is_effectively_zero(re(1e-11), re(1e-12)));
    assert_eq!(first_entry(&[re(1e-13), re(0.0), re(0.5)]), Some(2));
    assert_eq!(first_entry(&[re(0.0)]), None);
    assert!(deviates(re(1e-11), re(0.5), re(0.5), re(0.5), re(0.5)));
    assert!(!deviates(re(1e-11), re(10.0), re(0.5), re(0.5), re(0.5)));
    assert!(is_close_product(re(6.0), re(1.0), re(2.0), re(3.0)));
    assert!(!is_close_product(re(6.0), re(1.0), re(2.0), re(2.0)));
}

#[test]
fn products_are_split_at_their_first_entry() {
    let (left, right) =
        factor_product_state_2x2([re(0.0), re(0.0), re(2.0), re(4.0)]).unwrap();
    assert_eq!(left, [re(0.0), re(1.0)]);
    assert_eq!(right, [re(2.0), re(4.0)]);
    assert!(factor_product_state_2x2([re(1.0), re(0.0), re(0.0), re(1.0)]).is_none());
    assert!(factor_product_state_2x2([re(0.0); 4]).is_none());
    let (a, b) = try_rank1_factorization([re(1.0), re(2.0), re(3.0), re(6.0)]).unwrap();
    assert_eq!(a.data, vec![re(1.0), re(3.0)]);
    assert_eq!(b.data, vec![re(1.0), re(2.0)]);
}

#[test]
fn singular_values_are_kept_up_to_the_limits() {
    let s = vec![re(3.0), re(2.0), re(1e-14)];
    assert_eq!(kept(&s, threshold(), None), 2);
    assert_eq!(kept(&s, threshold(), Some(1)), 1);
    assert_eq!(kept(&s, threshold(), Some(0)), 1);
    assert_eq!(kept(&s, re(5.0), None), 1);
    assert_eq!(scale_for(&vec![re(3.0), re(4.0)], 2), re(1.0));
    assert_eq!(scale_for(&vec![re(3.0), re(4.0)], 1), re(5.0 / 3.0));
}

#[test]
fn factors_are_truncated() {
    let u = Tensor { left: 1, right: 2, data: vec![re(1.0), re(2.0), re(3.0), re(4.0)] };
    let v = Tensor { left: 2, right: 1, data: vec![re(5.0), re(6.0), re(7.0), re(8.0)] };
    let s = vec![re(3.0), re(4.0)];
    let (left, right) = truncate_factors(&u, &s, &v, threshold(), Some(1));
    assert_eq!(left.data, vec![re(1.0), re(3.0)]);
    assert_eq!(right.left, 1);
    assert_close(&right.data, &[re(25.0), re(30.0)]);
}

#[test]
fn decompositions_reproduce_the_pair() {
    let theta = Tensor {
        left: 2,
        right: 2,
        data: (0..8).map(|i| C::new(i as f64 / 10.0, (7 - i) as f64 / 20.0)).collect(),
    };
    let mut nanos: u64 = 5;
    let (left, right, split) =
        match finish_adjacent_2q(&theta, threshold(), None, false, &mut nanos) {
            Ok(pair) => pair,
            Err(_) => panic!("expected a decomposition"),
        };
    assert!(!split);
    assert!(nanos >= 5);
    for row in 0..2 {
        for s in 0..2 {
            for r in 0..2 {
                let mut sum = re(0.0);
                for b in 0..left.right {
                    sum += left.get(0, row, b) * right.get(b, s, r);
                }
                assert!((sum - theta.get(row, s, r)).norm() < 1e-12);
            }
        }
    }
}

#[test]
fn pairs_that_are_not_finite_are_errors() {
    let bad = Tensor { left: 1, right: 1, data: vec![re(f64::NAN), re(0.0)] };
    let good = Tensor { left: 1, right: 1, data: vec![re(1.0), re(0.0)] };
    let h = controlled_4(&fixed_gate(Kind::H));
    let mut nanos: u64 = 0;
    let r = update_pair(&bad, &good, &h, None, threshold(), None, &mut nanos);
    assert!(matches!(r, Err(GateError::NotFinite)));
    let huge = Tensor { left: 1, right: 1, data: vec![C::new(1.2e308, 1.2e308), re(1.0)] };
    let r = update_pair(&huge, &good, &h, None, threshold(), None, &mut nanos);
    assert!(matches!(r, Err(GateError::NotFinite)));
    assert_eq!(nanos, 0);
}

#[test]
fn the_largest_singular_value_comes_first() {
    let theta = Tensor { left: 2, right: 1, data: vec![re(1.0), re(0.0), re(0.0), re(3.0)] };
    let mut nanos: u64 = 0;
    match finish_adjacent_2q(&theta, re(0.0), Some(1), false, &mut nanos) {
        Ok((left, right, _)) => {
            assert!(left.data[0].norm() < 1e-12 && (left.data[1].norm() - 1.0).abs() < 1e-12);
            assert!(right.data[0].norm() < 1e-12);
            assert!((right.data[1].norm() - 10.0_f64.sqrt()).abs() < 1e-12);
        }
        Err(_) => panic!("expected a decomposition"),
    }
}

#[test]
fn decompositions_that_go_wrong_are_errors() {
    let mut data = vec![re(0.0); 16];
    data[0] = re(1.0);
    data[6] = re(1e-161);
    data[10] = re(1.0);
    data[11] = re(1e-10);
    let theta = Tensor { left: 4, right: 2, data };
    let mut nanos: u64 = 0;
    let r = finish_adjacent_2q(&theta, threshold(), None, false, &mut nanos);
    assert!(matches!(r, Err(GateError::NotFinite)));
}

#[test]
fn factors_are_put_in_order() {
    let u = vec![re(1.0), re(2.0), re(3.0), re(4.0), re(5.0), re(6.0)];
    let s = vec![re(0.5), re(7.0), re(2.0)];
    let v = vec![re(10.0), re(11.0), re(20.0), re(21.0), re(30.0), re(31.0)];
    let ordered = order_factors(2, 2, Some((Some(u.clone()), s.clone(), Some(v.clone()))));
    let (a, b, c) = ordered.ok().unwrap();
    assert_eq!(a, [2.0, 3.0, 1.0, 5.0, 6.0, 4.0].map(re).to_vec());
    assert_eq!(b, [7.0, 2.0, 0.5].map(re).to_vec());
    assert_eq!(c, [20.0, 21.0, 30.0, 31.0, 10.0, 11.0].map(re).to_vec());
    assert!(matches!(order_factors(2, 2, None), Err(GateError::NotFinite)));
    let bad = vec![re(0.5), re(f64::NAN), re(2.0)];
    let r = order_factors(2, 2, Some((Some(u.clone()), bad, Some(v.clone()))));
    assert!(matches!(r, Err(GateError::NotFinite)));
    let r = order_factors(2, 2, Some((None, s.clone(), Some(v))));
    assert!(matches!(r, Err(GateError::NoLeftFactor)));
    let r = order_factors(2, 2, Some((Some(u), s, None)));
    assert!(matches!(r, Err(GateError::NoRightFactor)));
}

#[test]
fn large_real_pairs_are_decomposed() {
    let theta = Tensor { left: 2, right: 1, data: vec![re(1e308), re(0.0), re(0.0), re(1.0)] };
    let mut nanos: u64 = 0;
    match finish_adjacent_2q(&theta, re(0.0), Some(1), false, &mut nanos) {
        Ok((left, right, split)) => {
            assert!(!split);
            assert_eq!((left.left, left.right), (1, 1));
            assert_eq!((right.left, right.right), (1, 1));
        }
        Err(_) => panic!("expected a decomposition"),
    }
}

#[test]
fn pairs_are_merged_over_their_bond() {
    let left = Tensor { left: 1, right: 2, data: vec![re(1.0), re(2.0), re(3.0), re(4.0)] };
    let right = Tensor { left: 2, right: 1, data: vec![re(5.0), re(6.0), re(7.0), re(8.0)] };
    let theta = pair_theta(&left, &right, &swap_4(), Some(swap_kernel())).unwrap();
    assert_eq!(theta.data, vec![re(19.0), re(43.0), re(22.0), re(50.0)]);
    let same = pair_theta(&left, &right, &swap_4(), None).unwrap();
    assert_eq!(same.data, theta.data);
    assert!(product_pair_update(&left, &right, &swap_4(), swap_kernel()).is_none());
}

#[test]
fn swapping_neighbours_keeps_the_maps_inverse() {
    let mut l2p = vec![0, 1, 2];
    let mut p2l = vec![0, 1, 2];
    simulate_logical_routing_swap(&mut l2p, &mut p2l, 1);
    assert_eq!(p2l, vec![0, 2, 1]);
    assert_eq!(l2p, vec![0, 2, 1]);
    simulate_logical_routing_swap(&mut l2p, &mut p2l, 1);
    assert_eq!(p2l, vec![0, 1, 2]);
}

#[test]
fn routing_brings_qubits_together() {
    let mut l2p = vec![0, 1, 2, 3];
    let mut p2l = vec![0, 1, 2, 3];
    simulate_routing_direction(&mut l2p, &mut p2l, 3, 0, RoutingDirection::MoveLowRight);
    assert_eq!(p2l, vec![1, 2, 0, 3]);
    let mut l2p = vec![0, 1, 2, 3];
    let mut p2l = vec![0, 1, 2, 3];
    simulate_routing_direction(&mut l2p, &mut p2l, 0, 3, RoutingDirection::MoveHighLeft);
    assert_eq!(p2l, vec![0, 3, 1, 2]);
    assert_eq!(l2p, vec![0, 2, 3, 1]);
}

#[test]
fn routes_are_scored_by_the_next_gates() {
    let ahead = vec![
        Instruction::H { qubit: 0 },
        Instruction::Cx { control: 0, target: 3 },
        Instruction::Rzz { a: 1, b: 2, theta: re(0.1) },
        Instruction::Swap { a: 0, b: 2 },
        Instruction::Cx { control: 0, target: 9 },
    ];
    let l2p = vec![0, 1, 2, 3];
    assert_eq!(score_routing_lookahead(&l2p, &ahead, 8), 3);
    assert_eq!(score_routing_lookahead(&l2p, &ahead, 2), 2);
    assert_eq!(score_routing_lookahead(&l2p, &ahead, 0), 0);
    let p2l = vec![0, 1, 2, 3];
    let high = score_routing_candidate(
        &l2p,
        &p2l,
        0,
        3,
        RoutingDirection::MoveHighLeft,
        &ahead,
        1,
    );
    assert_eq!(high, 0);
}

#[test]
fn pairs_are_read_off_two_qubit_gates() {
    let gate = |name: &str, qubits: Vec<usize>| Instruction::Gate {
        name: name.to_string(),
        params: vec![],
        qubits,
    };
    assert_eq!(mps_instruction_qubit_pair(&gate("EPR", vec![2, 5])), Some((2, 5)));
    assert_eq!(mps_instruction_qubit_pair(&gate("remote_cx", vec![2])), None);
    assert_eq!(mps_instruction_qubit_pair(&gate("other", vec![2, 5])), None);
    let guarded = Instruction::Conditional {
        condition: Condition { creg_base: 0, creg_size: 1, creg_value: 1 },
        op: Box::new(Instruction::Cz { control: 4, target: 1 }),
    };
    assert_eq!(mps_instruction_qubit_pair(&guarded), Some((4, 1)));
    assert_eq!(mps_instruction_qubit_pair(&Instruction::X { qubit: 1 }), None);
}

#[test]
fn measurement_projects_the_state() {
    for seed in 0..20 {
        let (_, mut mps) = amplitudes(&ghz(3), 3, plain_config());
        let mut rng = ChaCha8Rng::seed_from_u64(seed);
        let first = mps.measure(1, &mut rng);
        assert_eq!(mps.measure(0, &mut rng), first);
        assert_eq!(mps.measure(2, &mut rng), first);
        let state = mps.to_statevector();
        let index = if first == 1 { 7 } else { 0 };
        assert!((state[index].norm() - 1.0).abs() < 1e-9);
    }
}

#[test]
fn outcomes_have_their_weights() {
    let (_, mps) = amplitudes(&[Instruction::Ry { qubit: 1, theta: re(1.0) }], 2, plain_config());
    let p1 = mps.qubit_outcome_probability(1, 1).re;
    assert!((p1 - 0.5_f64.sin().powi(2)).abs() < 1e-12);
    assert!((mps.qubit_outcome_probability(1, 0).re + p1 - 1.0).abs() < 1e-12);
    assert_eq!(mps.qubit_outcome_probability(0, 1), re(0.0));
    assert_eq!(outcome_share(re(1.0), re(3.0)), re(0.75));
    assert_eq!(outcome_share(re(0.0), re(0.0)), re(0.0));
    assert_eq!(outcome_share(re(2.0), re(-1.0)), re(0.0));
    assert_eq!(outcome_share(re(-1.0), re(2.0)), re(1.0));
}

#[test]
fn projection_scales_what_is_left() {
    let (_, mut mps) = amplitudes(&[Instruction::H { qubit: 0 }], 1, plain_config());
    mps.project_qubit(0, 1, re(0.5));
    assert_close(&mps.to_statevector(), &[re(0.0), re(1.0)]);
    mps.project_qubit(0, 1, re(0.0));
    assert_close(&mps.to_statevector(), &[re(0.0), re(0.0)]);
}

#[test]
fn reset_leaves_zero() {
    for seed in 0..10 {
        let mut mps = Mps::new(1, None, threshold(), 1, plain_config());
        let mut cbits: HashMap<usize, i32> = HashMap::new();
        let mut rng = ChaCha8Rng::seed_from_u64(seed);
        for inst in [Instruction::H { qubit: 0 }, Instruction::Reset { qubit: 0 }] {
            assert!(run_instruction(&mut mps, &inst, &[], &mut cbits, &mut rng, &links()).is_ok());
        }
        assert!((mps.to_statevector()[0].norm() - 1.0).abs() < 1e-9);
    }
}

#[test]
fn gates_that_cannot_be_simulated_are_errors() {
    let gate = |name: &str| Instruction::Gate {
        name: name.to_string(),
        params: vec![],
        qubits: vec![0, 1],
    };
    let cases = [
        (
            gate("Remote_CU1"),
            "Symbolic 'remote_cu1' cannot be simulated natively. Distribute with lowered=True."
                .to_string(),
        ),
        (
            gate("circuit-7"),
            "Opaque symbolic subcircuit \"circuit-7\" cannot be simulated natively. Distribute with lowered=True."
                .to_string(),
        ),
        (
            gate("FOO"),
            "MPS simulator does not support generic gate \"foo\"".to_string(),
        ),
        (
            Instruction::Ccx { control1: 0, control2: 1, target: 2 },
            "MPS simulator only supports one- and two-qubit unitary gates plus measurement, reset, and conditionals"
                .to_string(),
        ),
    ];
    for (inst, text) in cases {
        let mut mps = Mps::new(3, None, threshold(), 1, plain_config());
        let mut cbits: HashMap<usize, i32> = HashMap::new();
        let mut rng = ChaCha8Rng::seed_from_u64(0);
        match run_instruction(&mut mps, &inst, &[], &mut cbits, &mut rng, &links()) {
            Err(e) => assert_eq!(e.message(), text),
            Ok(()) => panic!("expected an error"),
        }
    }
    assert_eq!(GateError::TooLarge.message(), "MPS tensor is too large");
    assert_eq!(GateError::NotFinite.message(), "MPS tensor is not finite");
    assert_eq!(GateError::NoLeftFactor.message(), "MPS SVD did not return U");
    assert_eq!(GateError::NoRightFactor.message(), "MPS SVD did not return Vt");
}

#[test]
fn gates_between_nodes_are_applied() {
    let gate = |name: &str| Instruction::Gate {
        name: name.to_string(),
        params: vec![],
        qubits: vec![0, 1],
    };
    let s = 0.5_f64.sqrt();
    for name in ["epr", "remote_epr", "REMOTE_LINK_PHI_PLUS"] {
        let (state, _) = amplitudes(&[gate(name)], 2, plain_config());
        assert_close(&state, &[re(s), re(0.0), re(0.0), re(s)]);
    }
    let (state, _) = amplitudes(&[Instruction::X { qubit: 0 }, gate("remote_cx")], 2, plain_config());
    assert_close(&state, &[re(0.0), re(0.0), re(0.0), re(1.0)]);
    let (state, _) =
        amplitudes(&[Instruction::X { qubit: 0 }, gate("remote_barrier")], 2, plain_config());
    assert_close(&state, &[re(0.0), re(1.0), re(0.0), re(0.0)]);
}

#[test]
fn conditions_guard_instructions() {
    let guarded = |value: u64| Instruction::Conditional {
        condition: Condition { creg_base: 0, creg_size: 2, creg_value: value },
        op: Box::new(Instruction::X { qubit: 1 }),
    };
    let list = |value: u64| {
        vec![
            Instruction::X { qubit: 0 },
            Instruction::Measure { qubit: 0, cbit: 1 },
            guarded(value),
            Instruction::Measure { qubit: 1, cbit: 0 },
        ]
    };
    let sim = MpsSimulator::new(Some(3), None, threshold());
    let report = sim
        .simulate_shots(&circuit(2, 2, list(2)), 5, 0, plain_config(), false, &links())
        .ok()
        .unwrap();
    assert_eq!(report.summary.counts.get("11"), Some(&5));
    let report = sim
        .simulate_shots(&circuit(2, 2, list(1)), 5, 0, plain_config(), false, &links())
        .ok()
        .unwrap();
    assert_eq!(report.summary.counts.get("10"), Some(&5));
}

#[test]
fn plans_need_measurements_at_the_end() {
    let m = |qubit: usize, cbit: usize| Instruction::Measure { qubit, cbit };
    let h = || Instruction::H { qubit: 0 };
    let plan = mps_terminal_measurement_plan(&[h(), m(1, 0), Instruction::Barrier, m(0, 2)]);
    assert_eq!(
        plan.unwrap().measurements,
        vec![
            TerminalMeasurement { qubit: 1, cbit: 0 },
            TerminalMeasurement { qubit: 0, cbit: 2 }
        ]
    );
    assert!(mps_terminal_measurement_plan(&[m(1, 0), h()]).is_none());
    assert!(mps_terminal_measurement_plan(&[m(1, 0), m(0, 0)]).is_none());
    assert!(mps_terminal_measurement_plan(&[Instruction::Reset { qubit: 0 }, m(0, 0)]).is_none());
    assert!(mps_terminal_measurement_plan(&[h()]).is_none());
}

#[test]
fn sequential_sampling_agrees_with_certain_states() {
    let plan = TerminalMeasurementPlan {
        measurements: vec![
            TerminalMeasurement { qubit: 0, cbit: 2 },
            TerminalMeasurement { qubit: 2, cbit: 0 },
            TerminalMeasurement { qubit: 1, cbit: 7 },
        ],
    };
    let mut state = vec![re(0.0); 8];
    state[0b001] = C::new(0.0, -1.0);
    let counts = sample_terminal_sequential_full_state(&state, 3, &plan, 16, 9);
    assert_eq!(counts.len(), 1);
    assert_eq!(counts.get("100"), Some(&16));
}

#[test]
fn sequential_sampling_keeps_correlations() {
    let plan = TerminalMeasurementPlan {
        measurements: vec![
            TerminalMeasurement { qubit: 0, cbit: 0 },
            TerminalMeasurement { qubit: 1, cbit: 1 },
            TerminalMeasurement { qubit: 0, cbit: 2 },
        ],
    };
    let s = 0.5_f64.sqrt();
    let state = vec![re(s), re(0.0), re(0.0), re(s)];
    let counts = sample_terminal_sequential_full_state(&state, 3, &plan, 200, 11);
    let zeros = *counts.get("000").unwrap();
    let ones = *counts.get("111").unwrap();
    assert_eq!(zeros + ones, 200);
    assert!(zeros > 50 && ones > 50);
}

#[test]
fn shots_agree_with_and_without_branching() {
    let mut list = ghz(3);
    for q in 0..3 {
        list.push(Instruction::Measure { qubit: q, cbit: q });
    }
    let c = circuit(3, 3, list);
    let sim = MpsSimulator::new(Some(17), None, threshold());
    let plain = sim.simulate_shots(&c, 60, 0, plain_config(), false, &links()).ok().unwrap();
    let batch = sim.simulate_shots(&c, 60, 0, plain_config(), true, &links()).ok().unwrap();
    assert!(!plain.shot_branching_used);
    assert_eq!(plain.shot_branching_strategy(), None);
    assert!(batch.shot_branching_used);
    assert_eq!(
        batch.shot_branching_strategy(),
        Some("terminal_measurement_full_state_batch")
    );
    for key in ["000", "111"] {
        assert_eq!(plain.summary.counts.get(key), batch.summary.counts.get(key));
    }
    assert_eq!(plain.summary.counters.logical_2q_gates, 120);
    assert_eq!(batch.summary.counters.logical_2q_gates, 2);
}

#[test]
fn the_drawn_seed_is_used_without_another() {
    let list = vec![Instruction::H { qubit: 0 }, Instruction::Measure { qubit: 0, cbit: 0 }];
    let c = circuit(1, 1, list);
    let fixed = MpsSimulator::new(Some(5), None, threshold());
    let free = MpsSimulator::new(None, None, threshold());
    for seed in 0..8 {
        let a = free.simulate(&c, seed, plain_config(), &links()).ok().unwrap();
        let sim = MpsSimulator::new(Some(seed), None, threshold());
        let b = sim.simulate(&c, 99, plain_config(), &links()).ok().unwrap();
        assert_eq!(a.cbits, b.cbits);
    }
    let a = fixed.simulate(&c, 1, plain_config(), &links()).ok().unwrap();
    let b = fixed.simulate(&c, 2, plain_config(), &links()).ok().unwrap();
    assert_eq!(a.cbits, b.cbits);
    assert_eq!(a.sv, b.sv);
}

#[test]
fn a_failing_shot_fails_the_run() {
    let c = circuit(3, 1, vec![Instruction::Ccx { control1: 0, control2: 1, target: 2 }]);
    let sim = MpsSimulator::new(Some(5), None, threshold());
    let r = sim.simulate_shots(&c, 3, 0, plain_config(), false, &links());
    assert!(matches!(r, Err(GateError::TooManyQubits)));
    assert!(matches!(
        sim.simulate(&c, 0, plain_config(), &links()),
        Err(GateError::TooManyQubits)
    ));
}

#[test]
fn many_qubits_without_much_entanglement_are_no_problem() {
    let n = 90;
    let mut list = vec![Instruction::H { qubit: 0 }];
    for q in 0..n - 1 {
        list.push(Instruction::Cx { control: q, target: q + 1 });
    }
    list.push(Instruction::Measure { qubit: 0, cbit: 0 });
    list.push(Instruction::Measure { qubit: n - 1, cbit: 1 });
    let sim = MpsSimulator::new(Some(8), None, threshold());
    let report = sim
        .simulate_shots(&circuit(n, 2, list), 6, 0, plain_config(), false, &links())
        .ok()
        .unwrap();
    let zeros = report.summary.counts.get("00").copied().unwrap_or(0);
    let ones = report.summary.counts.get("11").copied().unwrap_or(0);
    assert_eq!(zeros + ones, 6);
    assert_eq!(report.summary.counters.max_observed_bond_dimension, 2);
}

#[test]
fn counters_are_merged() {
    let mut a = MpsProfileCounters::default();
    a.note_gate(3);
    a.note_svd(2);
    let mut b = MpsProfileCounters::default();
    b.note_gate(1);
    b.note_split();
    b.note_flip();
    let mut ab = a;
    ab.merge(&b);
    let mut ba = b;
    ba.merge(&a);
    assert_eq!(ab, ba);
    assert_eq!(ab.logical_2q_gates, 2);
    assert_eq!(ab.total_routed_distance, 4);
    assert_eq!(ab.max_routed_distance, 3);
    assert_eq!(ab.max_observed_bond_dimension, 2);
    assert_eq!(ab.lookahead_flipped_routes, 1);
    let mut c = MpsProfileCounters::default();
    c.note_decision();
    let mut left = ab;
    left.merge(&c);
    let mut right = b;
    right.merge(&c);
    let mut whole = a;
    whole.merge(&right);
    assert_eq!(left, whole);
}

#[test]
fn summaries_are_merged() {
    let mut a = MpsRunSummary::new();
    a.counts.add("01".to_string(), 2);
    let mut b = MpsRunSummary::new();
    b.counts.add("01".to_string(), 3);
    b.counts.add("10".to_string(), 1);
    b.counters.note_adjacent();
    a.merge(&b);
    assert_eq!(a.counts.get("01"), Some(&5));
    assert_eq!(a.counts.get("10"), Some(&1));
    assert_eq!(a.counters.adjacent_2q_applications, 1);
    a.svd_nanos = 3;
    b.svd_nanos = u64::MAX - 1;
    a.merge(&b);
    assert_eq!(a.svd_nanos, u64::MAX);
}

#[test]
fn modes_have_names() {
    assert_eq!(MpsRoutingMode::Lookahead.as_str(), "lookahead");
    assert!(MpsRoutingMode::Lazy.uses_lazy_ordering());
    assert!(!MpsRoutingMode::Restore.uses_lazy_ordering());
    assert_eq!(MpsTwoQKernelMode::Force.as_str(), "force");
    assert!(!MpsTwoQKernelMode::Off.enabled());
    assert!(MpsTwoQKernelMode::Auto.enabled());
}
