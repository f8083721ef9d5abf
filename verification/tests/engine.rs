use dqsim::engine::{
    apply_cswap_kernel, apply_cswap_kernel_seq, apply_cx_kernel, apply_cx_kernel_seq,
    apply_cz_kernel, apply_cz_kernel_seq, apply_multi_controlled_x_kernel,
    apply_multi_controlled_x_kernel_seq, apply_one_qubit, apply_one_qubit_seq, apply_swap_kernel,
    apply_swap_kernel_seq,
};
use dqsim::gate_matrix::fixed_gate;
use dqsim::gates::{controlled_gate, controlled_swap};
use dqsim::instruction::Kind;
use dqsim::measure::{collapse_qubit, marginal_probs, measure_qubit, measure_qubit_seq, read_index};
use dqsim::wide_gate::{apply_n_qubit, apply_n_qubit_seq};
use num_complex::Complex64;
use rand::SeedableRng;
use rand_chacha::ChaCha8Rng;

type C = Complex64;

fn assert_close(actual: f64, expected: f64) {
    assert!((actual - expected).abs() < 1e-12, "{actual} != {expected}");
}

fn sample_state(n: usize) -> Vec<C> {
    (0..(1usize << n))
        .map(|i| C::new((i as f64 + 1.0) / 100.0, ((i % 7) as f64 - 3.0) / 100.0))
        .collect()
}

fn assert_state_close(actual: &[C], expected: &[C]) {
    assert_eq!(actual.len(), expected.len());
    for (i, (actual, expected)) in actual.iter().zip(expected).enumerate() {
        let diff = (*actual - *expected).norm();
        assert!(diff < 1e-12, "state[{i}] differs: {actual:?} != {expected:?}");
    }
}

#[test]
fn marginal_probs_accumulates_in_one_pass_order() {
    let mut state = vec![C::new(0.0, 0.0); 8];
    state[0b000] = C::new(0.1_f64.sqrt(), 0.0);
    state[0b101] = C::new(0.2_f64.sqrt(), 0.0);
    state[0b011] = C::new(0.3_f64.sqrt(), 0.0);
    state[0b111] = C::new(0.4_f64.sqrt(), 0.0);

    let probs = marginal_probs(&state, 3, &[2, 0]);

    assert_eq!(probs.len(), 4);
    assert_close(probs[0b00].re, 0.1);
    assert_close(probs[0b01].re, 0.3);
    assert_close(probs[0b10].re, 0.0);
    assert_close(probs[0b11].re, 0.6);
}

#[test]
fn reordering_qubits_permutes_marginals() {
    let state = sample_state(4);
    let one = marginal_probs(&state, 4, &[3, 0, 2]);
    let other = marginal_probs(&state, 4, &[0, 2, 3]);
    for outcome in 0..8usize {
        let (q3, q0, q2) = (outcome >> 2 & 1, outcome >> 1 & 1, outcome & 1);
        assert_eq!(one[outcome], other[q0 << 2 | q2 << 1 | q3]);
        assert!(one[outcome].re >= 0.0);
    }
    assert_ne!(one, other);
}

#[test]
fn multi_controlled_x_kernels_match_generic_matrices() {
    let n = 5;
    let x = fixed_gate(Kind::X);

    let mut fast = sample_state(n);
    let mut generic = fast.clone();
    apply_multi_controlled_x_kernel_seq(&mut fast, &[3, 1], 4, n);
    apply_n_qubit_seq(&mut generic, &controlled_gate(2, &x), &[3, 1, 4], n);
    assert_state_close(&fast, &generic);

    let mut fast = sample_state(n);
    let mut generic = fast.clone();
    apply_multi_controlled_x_kernel_seq(&mut fast, &[0, 2, 3], 4, n);
    apply_n_qubit_seq(&mut generic, &controlled_gate(3, &x), &[0, 2, 3, 4], n);
    assert_state_close(&fast, &generic);

    let mut fast = sample_state(n);
    let mut generic = fast.clone();
    apply_multi_controlled_x_kernel_seq(&mut fast, &[0, 1, 2, 3], 4, n);
    apply_n_qubit_seq(&mut generic, &controlled_gate(4, &x), &[0, 1, 2, 3, 4], n);
    assert_state_close(&fast, &generic);
}

#[test]
fn c3sqrtx_kernel_matches_generic_matrix() {
    let n = 5;
    let sx = fixed_gate(Kind::Sx);
    let mut fast = sample_state(n);
    let mut generic = fast.clone();

    apply_one_qubit_seq(&mut fast, &sx, 4, n, &[(0, true), (2, true), (3, true)]);
    apply_n_qubit_seq(&mut generic, &controlled_gate(3, &sx), &[0, 2, 3, 4], n);

    assert_state_close(&fast, &generic);
}

#[test]
fn controlled_swap_kernel_matches_generic_matrix() {
    let n = 12;
    let mut fast = sample_state(n);
    let mut generic = fast.clone();

    apply_cswap_kernel(&mut fast, 9, 1, 10, n);
    apply_n_qubit_seq(&mut generic, &controlled_swap(1), &[9, 1, 10], n);

    assert_state_close(&fast, &generic);
}

#[test]
fn cx_moves_amplitudes_where_the_control_is_set() {
    let mut state = sample_state(2);
    let before = state.clone();
    apply_cx_kernel(&mut state, 0, 1, 2);
    assert_eq!(state, vec![before[0], before[3], before[2], before[1]]);
    apply_cx_kernel_seq(&mut state, 0, 1, 2);
    assert_eq!(state, before);
}

#[test]
fn cz_negates_where_both_are_set() {
    let mut state = sample_state(2);
    let before = state.clone();
    apply_cz_kernel(&mut state, 0, 1, 2);
    assert_eq!(state, vec![before[0], before[1], before[2], -before[3]]);
    apply_cz_kernel_seq(&mut state, 1, 0, 2);
    assert_eq!(state, before);
}

#[test]
fn swap_undoes_itself_and_is_three_cx() {
    let n = 4;
    let mut state = sample_state(n);
    let before = state.clone();
    let mut by_cx = before.clone();
    apply_swap_kernel(&mut state, 3, 1, n);
    apply_cx_kernel(&mut by_cx, 3, 1, n);
    apply_cx_kernel(&mut by_cx, 1, 3, n);
    apply_cx_kernel(&mut by_cx, 3, 1, n);
    assert_eq!(state, by_cx);
    assert_ne!(state, before);
    apply_swap_kernel_seq(&mut state, 3, 1, n);
    assert_eq!(state, before);
}

#[test]
fn controlled_swap_undoes_itself() {
    let n = 3;
    let mut state = sample_state(n);
    let before = state.clone();
    apply_cswap_kernel_seq(&mut state, 2, 0, 1, n);
    assert_eq!(state[0b101], before[0b110]);
    assert_eq!(state[0b001], before[0b001]);
    apply_cswap_kernel_seq(&mut state, 2, 0, 1, n);
    assert_eq!(state, before);
}

#[test]
fn multi_controlled_x_undoes_itself_and_extends_cx() {
    let n = 4;
    let mut state = sample_state(n);
    let before = state.clone();
    apply_multi_controlled_x_kernel(&mut state, &[0, 2], 3, n);
    assert_eq!(state[0b0101], before[0b1101]);
    apply_multi_controlled_x_kernel(&mut state, &[0, 2], 3, n);
    assert_eq!(state, before);

    let mut by_cx = before.clone();
    apply_multi_controlled_x_kernel(&mut state, &[1], 2, n);
    apply_cx_kernel(&mut by_cx, 1, 2, n);
    assert_eq!(state, by_cx);
}

#[test]
fn one_qubit_gate_acts_on_its_target() {
    let h = fixed_gate(Kind::H);
    let mut state = vec![C::new(0.0, 0.0); 4];
    state[0] = C::new(1.0, 0.0);
    apply_one_qubit(&mut state, &h, 1, 2, &[]);
    let s = 0.5_f64.sqrt();
    assert_state_close(
        &state,
        &[C::new(s, 0.0), C::new(0.0, 0.0), C::new(s, 0.0), C::new(0.0, 0.0)],
    );
}

#[test]
fn one_qubit_gate_heeds_a_control_that_must_be_clear() {
    let x = fixed_gate(Kind::X);
    let mut state = sample_state(2);
    let before = state.clone();
    apply_one_qubit(&mut state, &x, 0, 2, &[(1, false)]);
    assert_state_close(&state, &[before[1], before[0], before[2], before[3]]);
}

#[test]
fn wide_gate_reads_its_first_qubit_as_the_highest() {
    let x = fixed_gate(Kind::X);
    let mut state = sample_state(2);
    let before = state.clone();
    apply_n_qubit(&mut state, &controlled_gate(1, &x), &[1, 0], 2);
    assert_state_close(&state, &[before[0], before[1], before[3], before[2]]);
}

#[test]
fn measurement_of_a_basis_state_is_certain() {
    let mut rng = ChaCha8Rng::seed_from_u64(5);
    let mut state = vec![C::new(0.0, 0.0); 8];
    state[0b101] = C::new(1.0, 0.0);
    let before = state.clone();
    assert_eq!(measure_qubit(&mut state, 0, 3, &mut rng), 1);
    assert_eq!(measure_qubit_seq(&mut state, 1, 3, &mut rng), 0);
    assert_eq!(measure_qubit(&mut state, 2, 3, &mut rng), 1);
    assert_state_close(&state, &before);
}

#[test]
fn measurements_follow_the_seed() {
    let h = fixed_gate(Kind::H);
    let mut ones = 0;
    for seed in 0..200 {
        let mut rng = ChaCha8Rng::seed_from_u64(seed);
        let mut again = ChaCha8Rng::seed_from_u64(seed);
        let mut state = vec![C::new(1.0, 0.0), C::new(0.0, 0.0)];
        apply_one_qubit(&mut state, &h, 0, 1, &[]);
        let mut other = state.clone();
        let outcome = measure_qubit(&mut state, 0, 1, &mut rng);
        assert_eq!(outcome, measure_qubit(&mut other, 0, 1, &mut again));
        assert_eq!(state, other);
        assert_close(state[outcome as usize].norm(), 1.0);
        ones += outcome as usize;
    }
    assert!(60 < ones && ones < 140);
}

#[test]
fn collapse_removes_the_other_outcome() {
    let mut state = vec![C::new(0.6, 0.0), C::new(0.0, 0.8)];
    collapse_qubit(&mut state, 0, 1, true, C::new(0.64, 0.0));
    assert_eq!(state[0], C::new(0.0, 0.0));
    assert_close(state[1].im, 1.0);

    let mut state = vec![C::new(0.6, 0.0), C::new(0.0, 0.8)];
    collapse_qubit(&mut state, 0, 1, false, C::new(0.64, 0.0));
    assert_close(state[0].re, 1.0);
    assert_eq!(state[1], C::new(0.0, 0.0));
}

#[test]
fn read_index_puts_the_first_qubit_highest() {
    assert_eq!(read_index(0b0110, &[1, 0]), 0b10);
    assert_eq!(read_index(0b0110, &[3, 2, 1]), 0b011);
    assert_eq!(read_index(0b0110, &[]), 0);
}
