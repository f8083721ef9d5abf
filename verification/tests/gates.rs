use std::collections::HashMap;

use dqsim::bits::saturating_product;
use dqsim::gate_matrix::{
    all_negligible, fixed_gate, gate_matrix_1q, identity_2x2, is_identity_2x2, matmul2x2,
    phase_matrix, rx_gate, rx_matrix, ry_matrix, rz_gate, rz_matrix, u1_gate, u2_gate, u3_gate,
    u3_matrix,
};
use dqsim::gates::{
    controlled_4, controlled_gate, copy_rows, cu_inner_matrix, phased_matrix, rows_of_4, rxx_gate,
    rxx_matrix, rzz_gate, rzz_matrix, swap_4,
};
use dqsim::instruction::{Condition, Instruction, Kind};
use dqsim::pblock::{merge_blocks, sorted_distinct, Block, BlockPool};
use num_complex::Complex64;

type C = Complex64;
type M = [[C; 2]; 2];

fn re(value: f64) -> C {
    C::new(value, 0.0)
}

fn assert_matrix(actual: &M, expected: &M) {
    for r in 0..2 {
        for c in 0..2 {
            assert!(
                (actual[r][c] - expected[r][c]).norm() < 1e-12,
                "[{r}][{c}]: {} != {}",
                actual[r][c],
                expected[r][c]
            );
        }
    }
}

#[test]
fn fixed_gates_have_their_matrices() {
    let i = C::new(0.0, 1.0);
    let s = 0.5_f64.sqrt();
    assert_eq!(fixed_gate(Kind::X), [[re(0.0), re(1.0)], [re(1.0), re(0.0)]]);
    assert_eq!(fixed_gate(Kind::Y), [[re(0.0), -i], [i, re(0.0)]]);
    assert_eq!(fixed_gate(Kind::Z), [[re(1.0), re(0.0)], [re(0.0), re(-1.0)]]);
    assert_matrix(&fixed_gate(Kind::H), &[[re(s), re(s)], [re(s), re(-s)]]);
    assert_matrix(&fixed_gate(Kind::T), &[[re(1.0), re(0.0)], [re(0.0), C::new(s, s)]]);
    let sx = fixed_gate(Kind::Sx);
    assert_matrix(&matmul2x2(sx, sx), &fixed_gate(Kind::X));
    assert_matrix(&matmul2x2(sx, fixed_gate(Kind::Sxdg)), &identity_2x2());
    assert_matrix(&matmul2x2(fixed_gate(Kind::S), fixed_gate(Kind::Sdg)), &identity_2x2());
    let t = fixed_gate(Kind::T);
    assert_matrix(&matmul2x2(t, t), &fixed_gate(Kind::S));
    assert_matrix(&matmul2x2(t, fixed_gate(Kind::Tdg)), &identity_2x2());
}

#[test]
fn rotations_have_their_angles() {
    let a = 0.8_f64;
    let (c, s) = ((a / 2.0).cos(), (a / 2.0).sin());
    assert_matrix(&rx_gate(re(a)), &[[re(c), C::new(0.0, -s)], [C::new(0.0, -s), re(c)]]);
    assert_matrix(&rz_gate(re(a)), &[[C::new(c, -s), re(0.0)], [re(0.0), C::new(c, s)]]);
    assert_matrix(&u1_gate(re(a)), &[[re(1.0), re(0.0)], [re(0.0), C::cis(a)]]);
    let (p, l) = (0.3_f64, 1.7_f64);
    assert_matrix(
        &u3_gate(re(a), re(p), re(l)),
        &[[re(c), -C::cis(l) * s], [C::cis(p) * s, C::cis(p + l) * c]],
    );
    let q = 0.5_f64.sqrt();
    assert_matrix(
        &u2_gate(re(p), re(l)),
        &[[re(q), -C::cis(l) * q], [C::cis(p) * q, C::cis(p + l) * q]],
    );
    let g = 0.9_f64;
    let inner = u3_gate(re(a), re(p), re(l));
    assert_matrix(
        &cu_inner_matrix(re(a), re(p), re(l), re(g)),
        &phased_matrix(C::cis(g), &inner),
    );
}

#[test]
fn matrices_are_built_from_cosines_and_sines() {
    let turn = C::new(0.6, 0.8);
    assert_eq!(ry_matrix(turn), [[re(0.6), re(-0.8)], [re(0.8), re(0.6)]]);
    assert_eq!(
        rx_matrix(turn),
        [[re(0.6), C::new(0.0, -0.8)], [C::new(0.0, -0.8), re(0.6)]]
    );
    assert_eq!(rz_matrix(turn.conj(), turn), [[turn.conj(), re(0.0)], [re(0.0), turn]]);
    assert_eq!(phase_matrix(turn)[1][1], turn);
    let u = u3_matrix(turn, re(1.0), re(1.0), re(1.0));
    assert_matrix(&u, &[[re(0.6), re(-0.8)], [re(0.8), re(0.6)]]);
    let xx = rxx_matrix(turn);
    assert_eq!(xx[0][0], re(0.6));
    assert_eq!(xx[1][2], C::new(0.0, -0.8));
    assert_eq!(xx[0][1], re(0.0));
    let zz = rzz_matrix(turn.conj(), turn);
    assert_eq!(zz[0][0], turn.conj());
    assert_eq!(zz[1][1], turn);
    assert!((rxx_gate(re(0.5))[3][3].re - 0.25_f64.cos()).abs() < 1e-12);
    assert!((rzz_gate(re(0.5))[2][2].im - 0.25_f64.sin()).abs() < 1e-12);
}

#[test]
fn instructions_have_matrices() {
    let (qubit, m) = gate_matrix_1q(&Instruction::Ry { qubit: 7, theta: re(0.4) }).unwrap();
    assert_eq!(qubit, 7);
    assert!((m[1][0].re - 0.2_f64.sin()).abs() < 1e-12);
    assert!(gate_matrix_1q(&Instruction::Barrier).is_none());
    assert!(gate_matrix_1q(&Instruction::Measure { qubit: 0, cbit: 0 }).is_none());
}

#[test]
fn the_identity_is_recognised() {
    assert!(is_identity_2x2(&identity_2x2()));
    assert!(is_identity_2x2(&[[re(1.0 + 1e-11), re(0.0)], [re(1e-11), re(1.0)]]));
    assert!(!is_identity_2x2(&[[re(1.0 + 1e-9), re(0.0)], [re(0.0), re(1.0)]]));
    assert!(!is_identity_2x2(&fixed_gate(Kind::Z)));
    assert!(all_negligible(re(1e-11), re(0.0), re(0.0), re(0.0)));
    assert!(!all_negligible(re(0.0), re(0.0), re(0.0), re(1e-9)));
}

#[test]
fn controlled_gates_stand_in_the_last_corner() {
    let x = fixed_gate(Kind::X);
    let m = controlled_4(&x);
    assert_eq!(m[2][3], re(1.0));
    assert_eq!(m[3][3], re(0.0));
    assert_eq!(m[1][1], re(1.0));
    let rows = controlled_gate(2, &x);
    assert_eq!(rows.len(), 8);
    assert_eq!(rows[6][7], re(1.0));
    assert_eq!(rows[5][5], re(1.0));
    assert_eq!(rows_of_4(&swap_4())[1], vec![re(0.0), re(0.0), re(1.0), re(0.0)]);
    assert_eq!(copy_rows(&rows), rows);
}

#[test]
fn instructions_list_their_qubits() {
    let inst = Instruction::Conditional {
        condition: Condition { creg_base: 0, creg_size: 1, creg_value: 1 },
        op: Box::new(Instruction::Cswap { control: 4, target1: 1, target2: 2 }),
    };
    assert_eq!(inst.qubits(), vec![4, 1, 2]);
    assert_eq!(inst.kind_of(), Kind::Conditional);
    let mut seen = Vec::new();
    inst.for_each_qubit(|q| seen.push(q));
    assert_eq!(seen, vec![4, 1, 2]);
    assert_eq!(Instruction::Barrier.qubits(), Vec::<usize>::new());
    assert_eq!(inst.clone().qubits(), vec![4, 1, 2]);
}

#[test]
fn products_stop_at_the_largest_number() {
    assert_eq!(saturating_product(6, 7), 42);
    assert_eq!(saturating_product(usize::MAX, 2), usize::MAX);
    assert_eq!(saturating_product(usize::MAX, 0), 0);
}

#[test]
fn blocks_hold_their_qubits_in_order() {
    assert_eq!(sorted_distinct(&vec![5, 1, 5, 3]), vec![1, 3, 5]);
    let block = Block::new(vec![5, 1]);
    assert_eq!(block.qubits, vec![1, 5]);
    assert_eq!(block.local(5), 1);
    assert_eq!(block.state, vec![re(1.0), re(0.0), re(0.0), re(0.0)]);
}

#[test]
fn merged_blocks_are_products() {
    let a = Block { state: vec![re(2.0), re(3.0)], qubits: vec![4] };
    let b = Block { state: vec![re(5.0), re(7.0), re(11.0), re(13.0)], qubits: vec![1, 9] };
    let merged = merge_blocks(a, b);
    assert_eq!(merged.qubits, vec![1, 4, 9]);
    assert_eq!(
        merged.state,
        [10.0, 14.0, 15.0, 21.0, 22.0, 26.0, 33.0, 39.0].map(re).to_vec()
    );
}

#[test]
fn merging_does_not_depend_on_the_order() {
    let a = || Block { state: vec![C::new(2.0, 0.1), C::new(3.0, -0.7)], qubits: vec![4] };
    let b = || Block {
        state: (0..4).map(|i| C::new(0.3 * i as f64, 1.1 - i as f64)).collect(),
        qubits: vec![1, 9],
    };
    let first = merge_blocks(a(), b());
    let second = merge_blocks(b(), a());
    assert_eq!(first.qubits, second.qubits);
    assert_eq!(first.state, second.state);
}

#[test]
fn pools_merge_blocks_on_demand() {
    let mut pool = BlockPool::new(&HashMap::from([(2, vec![4, 5]), (0, vec![0]), (1, vec![2])]));
    assert_eq!(pool.blocks.len(), 3);
    assert_eq!(pool.block_of(0), 0);
    assert_eq!(pool.block_of(2), 1);
    assert_eq!(pool.block_of(5), 2);
    let before = pool.blocks[2].as_ref().unwrap().state.clone();
    assert_eq!(pool.ensure_single_block(&[5, 4, 5]), 2);
    assert_eq!(pool.blocks[2].as_ref().unwrap().state, before);
    let at = pool.ensure_single_block(&[5, 0]);
    assert_eq!(at, 2);
    assert!(pool.blocks[0].is_none());
    assert_eq!(pool.blocks[2].as_ref().unwrap().qubits, vec![0, 4, 5]);
    assert_eq!(pool.block_of(0), at);
    assert_eq!(pool.block_of(4), at);
    assert_ne!(pool.block_of(2), at);
    let of: HashMap<usize, usize> = pool.qubit_to_block.clone();
    pool.merge(at, at);
    assert_eq!(pool.qubit_to_block, of);
    let whole = pool.merge_all();
    assert_eq!(whole.qubits, vec![0, 2, 4, 5]);
    assert_eq!(whole.state.len(), 16);
    assert_eq!(whole.state[0], re(1.0));
}
