//! What the gates of the tableau do to the operators that its rows stand for.
//!
//! A gate takes an operator to another one: with its matrix on either side, the old
//! operator and the new one are the same. The matrices are those of the state-vector simulator,
//! with the Hadamard gate in units of the square root of one half.

use vstd::prelude::*;

use crate::complex::complex_of;
use crate::engine::Matrix2;
use crate::gate_matrix::{half_root, is_matrix_of, real_neg};
use crate::instruction::Instruction;
use crate::stabilizer::{
    empty_row, fixed_product, ground_rows, h_row, is_fixed, is_tableau, measured, s_row, Row,
};
use crate::stabilizer_laws::{
    gaussian_product, gaussian_sum, is_consistent, law_measurement_keeps_consistency,
    law_reset_leaves_zero, law_second_measurement_repeats_the_first, law_x_flips_a_fixed_outcome,
    law_x_from_phase_gates, law_z_from_phase_gates, lemma_phase_sum_empty, lemma_small_gaussian,
    pauli_entry, row_power, unit_power, x_row, z_row, Gaussian,
};
use crate::stabilizer_shots::{clifford_step, fresh_shot, x_rows, CliffordShot};

verus! {

/// The qubit of a gate on one qubit of the tableau.
pub open spec fn tableau_qubit(inst: Instruction) -> Option<usize> {
    match inst {
        Instruction::H { qubit }
        | Instruction::S { qubit }
        | Instruction::Sdg { qubit }
        | Instruction::X { qubit }
        | Instruction::Y { qubit }
        | Instruction::Z { qubit }
        | Instruction::Id { qubit } => Some(qubit),
        _ => None,
    }
}

/// The entry of the matrix of such a gate in row `r` and column `c`; that of a Hadamard gate in
/// units of the square root of one half.
pub open spec fn tableau_entry(inst: Instruction, r: int, c: int) -> Gaussian {
    let none = Gaussian { re: 0, im: 0 };
    let one = Gaussian { re: 1, im: 0 };
    let minus = Gaussian { re: -1, im: 0 };
    let i = Gaussian { re: 0, im: 1 };
    let minus_i = Gaussian { re: 0, im: -1 };
    match inst {
        Instruction::H { .. } => if r == 1 && c == 1 {
            minus
        } else {
            one
        },
        Instruction::X { .. } => if r != c {
            one
        } else {
            none
        },
        Instruction::Y { .. } => if r == c {
            none
        } else if r == 1 {
            i
        } else {
            minus_i
        },
        _ => if r != c {
            none
        } else if r == 0 {
            one
        } else {
            match inst {
                Instruction::S { .. } => i,
                Instruction::Sdg { .. } => minus_i,
                Instruction::Z { .. } => minus,
                _ => one,
            }
        },
    }
}

/// The gates of the tableau have the matrices of the state-vector simulator.
pub proof fn law_tableau_gates_are_those_of_state_vectors(
    inst: Instruction,
    m: Matrix2,
    r: int,
    c: int,
)
    requires
        tableau_qubit(inst) is Some,
        is_matrix_of(inst, m),
        0 <= r < 2,
        0 <= c < 2,
    ensures
        ({
            let entry = tableau_entry(inst, r, c);
            m[r][c] == if inst is H {
                if entry.re == 1 {
                    half_root()
                } else {
                    real_neg(half_root())
                }
            } else {
                complex_of(entry.re, entry.im)
            }
        }),
{
}

/// The sign of a row.
pub open spec fn row_sign(row: Row, n: int) -> Gaussian {
    unit_power(row_power(row, n))
}

/// An entry of the operator of a row on one qubit, with the sign of the row.
pub open spec fn signed_entry(row: Row, n: int, q: int, r: int, c: int) -> Gaussian {
    gaussian_product(row_sign(row, n), pauli_entry(row[q], row[q + n], r, c))
}

/// Whether a gate on `q` takes the operator of one row to that of another: its matrix after the
/// first operator is the second operator after its matrix, and the rows agree on all other qubits.
pub open spec fn is_conjugated(inst: Instruction, n: int, q: int, row: Row, new: Row) -> bool {
    &&& new.len() == row.len()
    &&& forall|col: int|
        0 <= col < 2 * n && col != q && col != q + n ==> #[trigger] new[col] == row[col]
    &&& forall|r: int, c: int|
        #![trigger signed_entry(row, n, q, r, c)]
        0 <= r < 2 && 0 <= c < 2 ==> gaussian_sum(
            gaussian_product(tableau_entry(inst, r, 0), signed_entry(row, n, q, 0, c)),
            gaussian_product(tableau_entry(inst, r, 1), signed_entry(row, n, q, 1, c)),
        ) == gaussian_sum(
            gaussian_product(signed_entry(new, n, q, r, 0), tableau_entry(inst, 0, c)),
            gaussian_product(signed_entry(new, n, q, r, 1), tableau_entry(inst, 1, c)),
        )
}

proof fn lemma_signed_entry(row: Row, n: int, q: int, r: int, c: int)
    requires
        0 <= r < 2,
        0 <= c < 2,
    ensures
        ({
            let plain = pauli_entry(row[q], row[q + n], r, c);
            signed_entry(row, n, q, r, c) == if row[2 * n] {
                Gaussian { re: -plain.re, im: -plain.im }
            } else {
                plain
            }
        }),
{
    let plain = pauli_entry(row[q], row[q + n], r, c);
    lemma_small_gaussian(row_sign(row, n), plain);
}

proof fn lemma_conjugated_entry(
    inst: Instruction,
    n: int,
    q: int,
    row: Row,
    new: Row,
    r: int,
    c: int,
)
    requires
        tableau_qubit(inst) is Some,
        0 <= q < n,
        row.len() == 2 * n + 1,
        0 <= r < 2,
        0 <= c < 2,
        new[q] == (if inst is H {
            row[q + n]
        } else {
            row[q]
        }),
        new[q + n] == (if inst is H {
            row[q]
        } else if inst is S || inst is Sdg {
            row[q + n] ^ row[q]
        } else {
            row[q + n]
        }),
        new[2 * n] == (row[2 * n] ^ (match inst {
            Instruction::H { .. } | Instruction::S { .. } => row[q] && row[q + n],
            Instruction::Sdg { .. } => row[q] && !row[q + n],
            Instruction::X { .. } => row[q + n],
            Instruction::Y { .. } => row[q] ^ row[q + n],
            Instruction::Z { .. } => row[q],
            _ => false,
        })),
    ensures
        gaussian_sum(
            gaussian_product(tableau_entry(inst, r, 0), signed_entry(row, n, q, 0, c)),
            gaussian_product(tableau_entry(inst, r, 1), signed_entry(row, n, q, 1, c)),
        ) == gaussian_sum(
            gaussian_product(signed_entry(new, n, q, r, 0), tableau_entry(inst, 0, c)),
            gaussian_product(signed_entry(new, n, q, r, 1), tableau_entry(inst, 1, c)),
        ),
{
    lemma_signed_entry(row, n, q, 0, c);
    lemma_signed_entry(row, n, q, 1, c);
    lemma_signed_entry(new, n, q, r, 0);
    lemma_signed_entry(new, n, q, r, 1);
    lemma_small_gaussian(tableau_entry(inst, r, 0), signed_entry(row, n, q, 0, c));
    lemma_small_gaussian(tableau_entry(inst, r, 1), signed_entry(row, n, q, 1, c));
    lemma_small_gaussian(signed_entry(new, n, q, r, 0), tableau_entry(inst, 0, c));
    lemma_small_gaussian(signed_entry(new, n, q, r, 1), tableau_entry(inst, 1, c));
}

proof fn lemma_gate_row(inst: Instruction, n: int, shot: CliffordShot, i: int)
    requires
        tableau_qubit(inst) is Some,
        tableau_qubit(inst)->0 < n,
        0 <= i < shot.rows.len(),
        shot.rows[i].len() == 2 * n + 1,
    ensures
        ({
            let q = tableau_qubit(inst)->0 as int;
            let row = shot.rows[i];
            let after = clifford_step(inst, n, shot);
            after.rows.len() == shot.rows.len() && after.rows[i] == match inst {
                Instruction::H { .. } => h_row(row, n, q),
                Instruction::S { .. } => s_row(row, n, q),
                Instruction::Sdg { .. } => s_row(z_row(row, n, q), n, q),
                Instruction::X { .. } => x_row(row, n, q),
                Instruction::Y { .. } => z_row(x_row(row, n, q), n, q),
                Instruction::Z { .. } => z_row(row, n, q),
                _ => row,
            }
        }),
{
    let q = tableau_qubit(inst)->0 as int;
    let row = shot.rows[i];
    law_z_from_phase_gates(row, n, q);
    law_x_from_phase_gates(row, n, q);
    law_z_from_phase_gates(x_row(row, n, q), n, q);
}

/// A gate on one qubit takes the operator of every row to the one that it makes of it, and
/// changes nothing else.
pub proof fn law_gates_conjugate_rows(inst: Instruction, n: int, shot: CliffordShot, i: int)
    requires
        tableau_qubit(inst) is Some,
        tableau_qubit(inst)->0 < n,
        0 <= i < shot.rows.len(),
        shot.rows[i].len() == 2 * n + 1,
    ensures
        ({
            let after = clifford_step(inst, n, shot);
            &&& after.rows.len() == shot.rows.len()
            &&& is_conjugated(
                inst,
                n,
                tableau_qubit(inst)->0 as int,
                shot.rows[i],
                after.rows[i],
            )
            &&& after.cbits == shot.cbits && after.rng == shot.rng && after.measurements
                == shot.measurements
        }),
{
    let q = tableau_qubit(inst)->0 as int;
    let row = shot.rows[i];
    let new = clifford_step(inst, n, shot).rows[i];
    lemma_gate_row(inst, n, shot, i);
    assert(new.len() == row.len());
    assert forall|col: int| 0 <= col < 2 * n && col != q && col != q + n implies #[trigger] new[col]
        == row[col] by {}
    assert forall|r: int, c: int|
        #![trigger signed_entry(row, n, q, r, c)]
        0 <= r < 2 && 0 <= c < 2 implies gaussian_sum(
        gaussian_product(tableau_entry(inst, r, 0), signed_entry(row, n, q, 0, c)),
        gaussian_product(tableau_entry(inst, r, 1), signed_entry(row, n, q, 1, c)),
    ) == gaussian_sum(
        gaussian_product(signed_entry(new, n, q, r, 0), tableau_entry(inst, 0, c)),
        gaussian_product(signed_entry(new, n, q, r, 1), tableau_entry(inst, 1, c)),
    ) by {
        lemma_conjugated_entry(inst, n, q, row, new, r, c);
    }
}

/// An entry of the operator of a row on two qubits.
pub open spec fn joint_entry(
    row: Row,
    n: int,
    a: int,
    b: int,
    ra: int,
    rb: int,
    ca: int,
    cb: int,
) -> Gaussian {
    gaussian_product(
        row_sign(row, n),
        gaussian_product(
            pauli_entry(row[a], row[a + n], ra, ca),
            pauli_entry(row[b], row[b + n], rb, cb),
        ),
    )
}

/// The value of the target after a controlled NOT.
pub open spec fn flipped_by(control: int, target: int) -> int {
    if control == 1 {
        1 - target
    } else {
        target
    }
}

/// A controlled NOT takes the operator of every row to the one that it makes of it: it
/// exchanges the values of the target where the control is set, on either side of the
/// operator. It changes nothing else.
pub proof fn law_controlled_not_conjugates_rows(
    control: usize,
    target: usize,
    n: int,
    shot: CliffordShot,
    i: int,
    ra: int,
    rb: int,
    ca: int,
    cb: int,
)
    requires
        control < n,
        target < n,
        control != target,
        0 <= i < shot.rows.len(),
        shot.rows[i].len() == 2 * n + 1,
        0 <= ra < 2,
        0 <= rb < 2,
        0 <= ca < 2,
        0 <= cb < 2,
    ensures
        ({
            let after = clifford_step(Instruction::Cx { control, target }, n, shot);
            let (a, b) = (control as int, target as int);
            let (row, new) = (shot.rows[i], after.rows[i]);
            &&& after.rows.len() == shot.rows.len()
            &&& new.len() == row.len()
            &&& joint_entry(row, n, a, b, ra, flipped_by(ra, rb), ca, cb) == joint_entry(
                new,
                n,
                a,
                b,
                ra,
                rb,
                ca,
                flipped_by(ca, cb),
            )
            &&& forall|col: int|
                0 <= col < 2 * n && col != a && col != a + n && col != b && col != b + n
                    ==> #[trigger] new[col] == row[col]
            &&& after.cbits == shot.cbits && after.rng == shot.rng && after.measurements
                == shot.measurements
        }),
{
    let after = clifford_step(Instruction::Cx { control, target }, n, shot);
    let (a, b) = (control as int, target as int);
    let (row, new) = (shot.rows[i], after.rows[i]);
    lemma_joint_entry(row, n, a, b, ra, flipped_by(ra, rb), ca, cb);
    lemma_joint_entry(new, n, a, b, ra, rb, ca, flipped_by(ca, cb));
    lemma_small_gaussian(
        pauli_entry(row[a], row[a + n], ra, ca),
        pauli_entry(row[b], row[b + n], flipped_by(ra, rb), cb),
    );
    lemma_small_gaussian(
        pauli_entry(new[a], new[a + n], ra, ca),
        pauli_entry(new[b], new[b + n], rb, flipped_by(ca, cb)),
    );
    assert(new[a] == row[a]);
    assert(new[b] == row[b] ^ row[a]);
    assert(new[a + n] == row[a + n] ^ row[b + n]);
    assert(new[b + n] == row[b + n]);
}

proof fn lemma_joint_entry(
    row: Row,
    n: int,
    a: int,
    b: int,
    ra: int,
    rb: int,
    ca: int,
    cb: int,
)
    requires
        0 <= ra < 2,
        0 <= rb < 2,
        0 <= ca < 2,
        0 <= cb < 2,
    ensures
        ({
            let plain = gaussian_product(
                pauli_entry(row[a], row[a + n], ra, ca),
                pauli_entry(row[b], row[b + n], rb, cb),
            );
            joint_entry(row, n, a, b, ra, rb, ca, cb) == if row[2 * n] {
                Gaussian { re: -plain.re, im: -plain.im }
            } else {
                plain
            }
        }),
{
    let first = pauli_entry(row[a], row[a + n], ra, ca);
    let second = pauli_entry(row[b], row[b + n], rb, cb);
    lemma_small_gaussian(first, second);
    lemma_small_gaussian(row_sign(row, n), gaussian_product(first, second));
}

proof fn lemma_ground_product(n: int, q: int, count: int)
    requires
        0 <= q < n,
        0 <= count <= n,
    ensures
        fixed_product(ground_rows(n), n, q, count).len() == 2 * n + 1,
        !fixed_product(ground_rows(n), n, q, count)[2 * n],
        count <= q ==> fixed_product(ground_rows(n), n, q, count) == empty_row(n),
    decreases count,
{
    if count > 0 {
        lemma_ground_product(n, q, count - 1);
        if count - 1 == q {
            lemma_phase_sum_empty(ground_rows(n)[q + n], n, n);
        }
    }
}

/// Every qubit of the ground state is measured to be 0, without a draw.
pub proof fn law_ground_state_measures_zero(n: int, seed: u64, qubit: usize, cbit: usize)
    requires
        qubit < n,
    ensures
        ({
            let start = fresh_shot(n, seed);
            let after = clifford_step(Instruction::Measure { qubit, cbit }, n, start);
            &&& after.cbits == start.cbits.insert(cbit, 0i32)
            &&& after.rows == start.rows
            &&& after.rng == start.rng
        }),
{
    let rows = ground_rows(n);
    assert(is_fixed(rows, n, qubit as int));
    lemma_ground_product(n, qubit as int, n);
}

/// Measuring a qubit twice gives the same classical bit twice, and the second measurement changes
/// nothing else. A measurement writes 0 or 1 to its own classical bit only.
pub proof fn law_measured_bits_repeat(
    n: int,
    shot: CliffordShot,
    qubit: usize,
    first: usize,
    second: usize,
)
    requires
        is_tableau(shot.rows, n),
        qubit < n,
    ensures
        ({
            let once = clifford_step(Instruction::Measure { qubit, cbit: first }, n, shot);
            let twice = clifford_step(Instruction::Measure { qubit, cbit: second }, n, once);
            &&& once.cbits[first] == 0 || once.cbits[first] == 1
            &&& once.cbits == shot.cbits.insert(first, once.cbits[first])
            &&& twice.cbits == once.cbits.insert(second, once.cbits[first])
            &&& twice.rows == once.rows
            &&& twice.rng == once.rng
        }),
{
    law_second_measurement_repeats_the_first(shot.rows, n, qubit as int, shot.rng);
}

proof fn lemma_x_row_is_x_rows(rows: Seq<Row>, n: int, q: usize)
    requires
        is_tableau(rows, n),
        q < n,
    ensures
        x_rows(rows, n, q) == rows.map_values(|row: Row| x_row(row, n, q as int)),
{
    let flipped = rows.map_values(|row: Row| x_row(row, n, q as int));
    assert forall|i: int| 0 <= i < rows.len() implies #[trigger] x_rows(rows, n, q)[i]
        == flipped[i] by {
        assert(rows[i].len() == 2 * n + 1);
        law_x_from_phase_gates(rows[i], n, q as int);
    }
    assert(x_rows(rows, n, q) =~= flipped);
}

/// A qubit that was reset is measured to be 0.
pub proof fn law_reset_qubits_measure_zero(
    n: int,
    shot: CliffordShot,
    qubit: usize,
    cbit: usize,
)
    requires
        is_consistent(shot.rows, n),
        qubit < n,
    ensures
        ({
            let reset = clifford_step(Instruction::Reset { qubit }, n, shot);
            let after = clifford_step(Instruction::Measure { qubit, cbit }, n, reset);
            &&& reset.cbits == shot.cbits
            &&& after.cbits == shot.cbits.insert(cbit, 0i32)
            &&& after.rows == reset.rows
            &&& after.rng == reset.rng
        }),
{
    let (one, rows, rng) = measured(shot.rows, n, qubit as int, shot.rng);
    law_measurement_keeps_consistency(
        shot.rows,
        n,
        qubit as int,
        shot.rng,
    );
    lemma_x_row_is_x_rows(rows, n, qubit);
    law_reset_leaves_zero(shot.rows, n, qubit as int, shot.rng);
}

/// An X gate flips what a measurement finds, where that is fixed.
pub proof fn law_x_flips_what_is_measured(
    n: int,
    shot: CliffordShot,
    qubit: usize,
    cbit: usize,
)
    requires
        is_consistent(shot.rows, n),
        qubit < n,
        is_fixed(shot.rows, n, qubit as int),
    ensures
        ({
            let plain = clifford_step(Instruction::Measure { qubit, cbit }, n, shot);
            let flipped = clifford_step(
                Instruction::Measure { qubit, cbit },
                n,
                clifford_step(Instruction::X { qubit }, n, shot),
            );
            flipped.cbits[cbit] == 1 - plain.cbits[cbit]
        }),
{
    lemma_x_row_is_x_rows(shot.rows, n, qubit);
    law_x_flips_a_fixed_outcome(shot.rows, n, qubit as int);
}

} // verus!
