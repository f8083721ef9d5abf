//! Stabilizer states.
//!
//! A state of `n` qubits is held as a tableau of `2n` rows, each standing for a product of
//! Pauli operators: the first `n` rows are the destabilizers, the others the stabilizers. A
//! row has `2n + 1` columns: for each qubit whether the operator has an X part, for each qubit
//! whether it has a Z part, and whether its sign is negative.

use rand_chacha::ChaCha8Rng;
use vstd::prelude::*;

use crate::random::{draw_bool, drawn_bool};

verus! {

/// One row of a tableau.
pub type Row = Seq<bool>;

/// Whether some rows form a tableau for `n` qubits.
pub open spec fn is_tableau(rows: Seq<Row>, n: int) -> bool {
    &&& rows.len() == 2 * n
    &&& forall|r: int| 0 <= r < 2 * n ==> (#[trigger] rows[r]).len() == 2 * n + 1
}

/// The row without any operator.
pub open spec fn empty_row(n: int) -> Row {
    Seq::new((2 * n + 1) as nat, |c: int| false)
}

/// The row whose only entry is in column `c`.
pub open spec fn unit_row(n: int, c: int) -> Row {
    empty_row(n).update(c, true)
}

/// The rows of the ground state: X parts for the destabilizers, Z parts for the stabilizers.
pub open spec fn ground_rows(n: int) -> Seq<Row> {
    Seq::new((2 * n) as nat, |r: int| unit_row(n, r))
}

/// A row after a Hadamard gate on `q`: its X and Z parts change places.
pub open spec fn h_row(row: Row, n: int, q: int) -> Row {
    row.update(q, row[q + n]).update(q + n, row[q]).update(
        2 * n,
        row[2 * n] ^ (row[q] && row[q + n]),
    )
}

/// A row after a phase gate on `q`.
pub open spec fn s_row(row: Row, n: int, q: int) -> Row {
    row.update(2 * n, row[2 * n] ^ (row[q] && row[q + n])).update(q + n, row[q + n] ^ row[q])
}

/// A row after a controlled NOT.
pub open spec fn cnot_row(row: Row, n: int, control: int, target: int) -> Row {
    row.update(
        2 * n,
        row[2 * n] ^ (row[control] && row[target + n] && (row[target] ^ row[control + n] ^ true)),
    ).update(target, row[target] ^ row[control]).update(
        control + n,
        row[control + n] ^ row[target + n],
    )
}

/// The power of the imaginary unit that the product of two Pauli operators on one qubit
/// picks up.
pub open spec fn g_phase(x1: bool, z1: bool, x2: bool, z2: bool) -> int {
    if !x1 && !z1 || !x2 && !z2 {
        0
    } else if x1 && !z1 {
        if x2 && z2 {
            1
        } else if !x2 && z2 {
            -1
        } else {
            0
        }
    } else if x1 && z1 {
        if x2 && !z2 {
            -1
        } else if !x2 && z2 {
            1
        } else {
            0
        }
    } else {
        if x2 && !z2 {
            1
        } else if x2 && z2 {
            -1
        } else {
            0
        }
    }
}

/// The sum of the powers over the first `count` qubits.
pub open spec fn phase_sum(source: Row, target: Row, n: int, count: int) -> int
    decreases count,
{
    if count <= 0 {
        0
    } else {
        phase_sum(source, target, n, count - 1) + g_phase(
            source[count - 1],
            source[count - 1 + n],
            target[count - 1],
            target[count - 1 + n],
        )
    }
}

/// Two for a negative sign.
pub open spec fn sign_power(negative: bool) -> int {
    if negative {
        2
    } else {
        0
    }
}

/// Whether the product of two rows has a negative sign.
pub open spec fn product_sign(source: Row, target: Row, n: int) -> bool {
    (phase_sum(source, target, n, n) + sign_power(source[2 * n]) + sign_power(target[2 * n])) % 4
        == 2
}

/// The product of two rows.
pub open spec fn product_row(source: Row, target: Row, n: int) -> Row {
    Seq::new(
        target.len(),
        |c: int|
            if c < 2 * n {
                target[c] ^ source[c]
            } else {
                product_sign(source, target, n)
            },
    )
}

/// Whether row `p` is the first stabilizer with an X part on `q`.
pub open spec fn is_pivot(rows: Seq<Row>, n: int, q: int, p: int) -> bool {
    &&& n <= p < 2 * n
    &&& rows[p][q]
    &&& forall|r: int| n <= r < p ==> !(#[trigger] rows[r])[q]
}

/// Whether measuring `q` has a fixed outcome: no stabilizer has an X part there.
pub open spec fn is_fixed(rows: Seq<Row>, n: int, q: int) -> bool {
    forall|r: int| n <= r < 2 * n ==> !(#[trigger] rows[r])[q]
}

/// The rows after a measurement of `q` without a fixed outcome, where `p` was the first
/// stabilizer with an X part on `q`.
pub open spec fn collapsed_rows(rows: Seq<Row>, n: int, q: int, p: int, outcome: bool) -> Seq<Row> {
    Seq::new(
        rows.len(),
        |r: int|
            if r == p {
                unit_row(n, q + n).update(2 * n, outcome)
            } else if r == p - n {
                rows[p]
            } else if rows[r][q] {
                product_row(rows[p], rows[r], n)
            } else {
                rows[r]
            },
    )
}

/// The product of those stabilizers, among the first `count`, whose destabilizers have an X
/// part on `q`.
pub open spec fn fixed_product(rows: Seq<Row>, n: int, q: int, count: int) -> Row
    decreases count,
{
    if count <= 0 {
        empty_row(n)
    } else {
        let before = fixed_product(rows, n, q, count - 1);
        if rows[count - 1][q] {
            product_row(rows[count - 1 + n], before, n)
        } else {
            before
        }
    }
}

/// The outcome of a measurement of `q` that has a fixed outcome.
pub open spec fn fixed_outcome(rows: Seq<Row>, n: int, q: int) -> bool {
    fixed_product(rows, n, q, n)[2 * n]
}

/// The first stabilizer with an X part on `q`.
pub open spec fn pivot(rows: Seq<Row>, n: int, q: int) -> int {
    choose|p: int| is_pivot(rows, n, q, p)
}

/// What a measurement of `q` gives, with the rows and the generator afterwards. Only a
/// measurement without a fixed outcome draws from the generator.
pub open spec fn measured(rows: Seq<Row>, n: int, q: int, rng: ChaCha8Rng) -> (
    bool,
    Seq<Row>,
    ChaCha8Rng,
) {
    if is_fixed(rows, n, q) {
        (fixed_outcome(rows, n, q), rows, rng)
    } else {
        let (coin, after) = drawn_bool(rng);
        (coin, collapsed_rows(rows, n, q, pivot(rows, n, q), coin), after)
    }
}

/// A stabilizer state.
pub struct StabilizerState {
    pub num_qubits: usize,
    pub tableau: Vec<Vec<bool>>,
}

/// The largest number of qubits for which the powers in a product of rows fit.
pub const MAX_STABILIZER_QUBITS: usize = 0x3fff_fff0;

impl StabilizerState {
    /// The rows of the tableau.
    pub open spec fn rows(&self) -> Seq<Row> {
        self.tableau@.map_values(|row: Vec<bool>| row@)
    }

    /// Whether the tableau has the right shape.
    pub open spec fn wf(&self) -> bool {
        &&& self.num_qubits <= MAX_STABILIZER_QUBITS
        &&& is_tableau(self.rows(), self.num_qubits as int)
    }

    /// The ground state, in which every qubit is 0.
    pub fn new(num_qubits: usize) -> (r: StabilizerState)
        requires
            num_qubits <= MAX_STABILIZER_QUBITS,
        ensures
            r.wf(),
            r.num_qubits == num_qubits,
            r.rows() == ground_rows(num_qubits as int),
    {
        let width: usize = 2 * num_qubits + 1;
        let height: usize = 2 * num_qubits;
        let mut tableau: Vec<Vec<bool>> = Vec::new();
        let mut r: usize = 0;
        while r < height
            invariant
                r <= height,
                height == 2 * num_qubits,
                width == height + 1,
                tableau@.len() == r,
                forall|i: int|
                    0 <= i < r ==> (#[trigger] tableau@[i])@ == unit_row(num_qubits as int, i),
            decreases height - r,
        {
            let mut row: Vec<bool> = clear_row(width);
            row[r] = true;
            assert(row@ =~= unit_row(num_qubits as int, r as int));
            tableau.push(row);
            r = r + 1;
        }
        let state: StabilizerState = StabilizerState { num_qubits, tableau };
        assert(state.rows() =~= ground_rows(num_qubits as int));
        state
    }

    /// Applies a Hadamard gate.
    pub fn apply_h(&mut self, qubit: usize)
        requires
            old(self).wf(),
            qubit < old(self).num_qubits,
        ensures
            final(self).wf(),
            final(self).num_qubits == old(self).num_qubits,
            final(self).rows() == old(self).rows().map_values(
                |row: Row| h_row(row, old(self).num_qubits as int, qubit as int),
            ),
    {
        let n: usize = self.num_qubits;
        let ghost before = self.rows();
        let mut r: usize = 0;
        while r < 2 * n
            invariant
                r <= 2 * n,
                n == self.num_qubits,
                n <= MAX_STABILIZER_QUBITS,
                qubit < n,
                is_tableau(before, n as int),
                self.tableau@.len() == 2 * n,
                forall|i: int|
                    0 <= i < 2 * n ==> (#[trigger] self.tableau@[i])@ == (if i < r {
                        h_row(before[i], n as int, qubit as int)
                    } else {
                        before[i]
                    }),
            decreases 2 * n - r,
        {
            assert(self.tableau@[r as int]@ == before[r as int]);
            let x: bool = self.tableau[r][qubit];
            let z: bool = self.tableau[r][qubit + n];
            let sign: bool = self.tableau[r][2 * n];
            let mut row: Vec<bool> = take_row(&mut self.tableau, r);
            row[qubit] = z;
            row[qubit + n] = x;
            row[2 * n] = sign ^ (x && z);
            assert(row@ =~= h_row(before[r as int], n as int, qubit as int));
            self.tableau[r] = row;
            r = r + 1;
        }
        assert(self.rows() =~= before.map_values(|row: Row| h_row(row, n as int, qubit as int)));
    }

    /// Applies a phase gate.
    pub fn apply_s(&mut self, qubit: usize)
        requires
            old(self).wf(),
            qubit < old(self).num_qubits,
        ensures
            final(self).wf(),
            final(self).num_qubits == old(self).num_qubits,
            final(self).rows() == old(self).rows().map_values(
                |row: Row| s_row(row, old(self).num_qubits as int, qubit as int),
            ),
    {
        let n: usize = self.num_qubits;
        let ghost before = self.rows();
        let mut r: usize = 0;
        while r < 2 * n
            invariant
                r <= 2 * n,
                n == self.num_qubits,
                n <= MAX_STABILIZER_QUBITS,
                qubit < n,
                is_tableau(before, n as int),
                self.tableau@.len() == 2 * n,
                forall|i: int|
                    0 <= i < 2 * n ==> (#[trigger] self.tableau@[i])@ == (if i < r {
                        s_row(before[i], n as int, qubit as int)
                    } else {
                        before[i]
                    }),
            decreases 2 * n - r,
        {
            assert(self.tableau@[r as int]@ == before[r as int]);
            let x: bool = self.tableau[r][qubit];
            let z: bool = self.tableau[r][qubit + n];
            let sign: bool = self.tableau[r][2 * n];
            let mut row: Vec<bool> = take_row(&mut self.tableau, r);
            row[2 * n] = sign ^ (x && z);
            row[qubit + n] = z ^ x;
            assert(row@ =~= s_row(before[r as int], n as int, qubit as int));
            self.tableau[r] = row;
            r = r + 1;
        }
        assert(self.rows() =~= before.map_values(|row: Row| s_row(row, n as int, qubit as int)));
    }

    /// Applies a controlled NOT.
    pub fn apply_cnot(&mut self, control: usize, target: usize)
        requires
            old(self).wf(),
            control < old(self).num_qubits,
            target < old(self).num_qubits,
        ensures
            final(self).wf(),
            final(self).num_qubits == old(self).num_qubits,
            final(self).rows() == old(self).rows().map_values(
                |row: Row|
                    cnot_row(row, old(self).num_qubits as int, control as int, target as int),
            ),
    {
        let n: usize = self.num_qubits;
        let ghost before = self.rows();
        let mut r: usize = 0;
        while r < 2 * n
            invariant
                r <= 2 * n,
                n == self.num_qubits,
                n <= MAX_STABILIZER_QUBITS,
                control < n,
                target < n,
                is_tableau(before, n as int),
                self.tableau@.len() == 2 * n,
                forall|i: int|
                    0 <= i < 2 * n ==> (#[trigger] self.tableau@[i])@ == (if i < r {
                        cnot_row(before[i], n as int, control as int, target as int)
                    } else {
                        before[i]
                    }),
            decreases 2 * n - r,
        {
            assert(self.tableau@[r as int]@ == before[r as int]);
            let xc: bool = self.tableau[r][control];
            let xt: bool = self.tableau[r][target];
            let zc: bool = self.tableau[r][control + n];
            let zt: bool = self.tableau[r][target + n];
            let sign: bool = self.tableau[r][2 * n];
            let mut row: Vec<bool> = take_row(&mut self.tableau, r);
            row[2 * n] = sign ^ (xc && zt && (xt ^ zc ^ true));
            row[target] = xt ^ xc;
            row[control + n] = zc ^ zt;
            assert(row@ =~= cnot_row(before[r as int], n as int, control as int, target as int));
            self.tableau[r] = row;
            r = r + 1;
        }
        assert(self.rows() =~= before.map_values(
            |row: Row| cnot_row(row, n as int, control as int, target as int),
        ));
    }

    /// The first stabilizer with an X part on `qubit`.
    fn find_pivot(&self, qubit: usize) -> (r: Option<usize>)
        requires
            self.wf(),
            qubit < self.num_qubits,
        ensures
            match r {
                Some(p) => is_pivot(
                    self.rows(),
                    self.num_qubits as int,
                    qubit as int,
                    p as int,
                ),
                None => is_fixed(self.rows(), self.num_qubits as int, qubit as int),
            },
    {
        let n: usize = self.num_qubits;
        let mut r: usize = n;
        while r < 2 * n
            invariant
                n <= r <= 2 * n,
                n == self.num_qubits,
                n <= MAX_STABILIZER_QUBITS,
                qubit < n,
                self.wf(),
                forall|i: int| n <= i < r ==> !(#[trigger] self.rows()[i])[qubit as int],
            decreases 2 * n - r,
        {
            assert(self.tableau@[r as int]@ == self.rows()[r as int]);
            if self.tableau[r][qubit] {
                return Some(r);
            }
            r = r + 1;
        }
        None
    }

    /// Measures a qubit. The outcome is 0 or 1; where it is not fixed it is drawn.
    pub fn measure_qubit(&mut self, qubit: usize, rng: &mut ChaCha8Rng) -> (outcome: u8)
        requires
            old(self).wf(),
            qubit < old(self).num_qubits,
        ensures
            final(self).wf(),
            final(self).num_qubits == old(self).num_qubits,
            ({
                let (one, rows, after) = measured(
                    old(self).rows(),
                    old(self).num_qubits as int,
                    qubit as int,
                    *old(rng),
                );
                &&& outcome == if one {
                    1u8
                } else {
                    0u8
                }
                &&& final(self).rows() == rows
                &&& *final(rng) == after
            }),
    {
        let n: usize = self.num_qubits;
        let ghost before = self.rows();
        match self.find_pivot(qubit) {
            Some(p) => {
                let coin: bool = draw_bool(rng);
                self.collapse(qubit, p, coin);
                proof {
                    lemma_pivot_unique(before, n as int, qubit as int, p as int);
                    assert(!is_fixed(before, n as int, qubit as int)) by {
                        assert(before[p as int][qubit as int]);
                    }
                }
                if coin {
                    1
                } else {
                    0
                }
            },
            None => {
                if self.fixed_measurement(qubit) {
                    1
                } else {
                    0
                }
            },
        }
    }

    /// Collapses the state on a given outcome of a measurement that has no fixed one. `p` is
    /// the first stabilizer with an X part on `qubit`.
    pub fn collapse(&mut self, qubit: usize, p: usize, outcome: bool)
        requires
            old(self).wf(),
            qubit < old(self).num_qubits,
            is_pivot(old(self).rows(), old(self).num_qubits as int, qubit as int, p as int),
        ensures
            final(self).wf(),
            final(self).num_qubits == old(self).num_qubits,
            final(self).rows() == collapsed_rows(
                old(self).rows(),
                old(self).num_qubits as int,
                qubit as int,
                p as int,
                outcome,
            ),
    {
        let n: usize = self.num_qubits;
        let ghost before = self.rows();
        let mut r: usize = 0;
        while r < 2 * n
            invariant
                r <= 2 * n,
                n == self.num_qubits,
                n <= MAX_STABILIZER_QUBITS,
                qubit < n,
                is_tableau(before, n as int),
                is_pivot(before, n as int, qubit as int, p as int),
                self.tableau@.len() == 2 * n,
                forall|i: int|
                    0 <= i < 2 * n ==> (#[trigger] self.tableau@[i])@ == (if i < r && i != p
                        && before[i][qubit as int] {
                        product_row(before[p as int], before[i], n as int)
                    } else {
                        before[i]
                    }),
            decreases 2 * n - r,
        {
            assert(self.tableau@[r as int]@ == before[r as int]);
            assert(self.tableau@[p as int]@ == before[p as int]);
            if r != p && self.tableau[r][qubit] {
                let product: Vec<bool> = multiply_rows(&self.tableau[p], &self.tableau[r], n);
                self.tableau[r] = product;
            }
            r = r + 1;
        }
        assert(self.tableau@[p as int]@ == before[p as int]);
        let old_pivot: Vec<bool> = copy_row(&self.tableau[p]);
        self.tableau[p - n] = old_pivot;
        let mut fresh: Vec<bool> = clear_row(2 * n + 1);
        fresh[qubit + n] = true;
        fresh[2 * n] = outcome;
        assert(fresh@ =~= unit_row(n as int, qubit + n).update(2 * n, outcome));
        self.tableau[p] = fresh;
        assert(self.rows() =~= collapsed_rows(
            before,
            n as int,
            qubit as int,
            p as int,
            outcome,
        ));
    }

    /// The outcome of a measurement that has a fixed one.
    fn fixed_measurement(&self, qubit: usize) -> (outcome: bool)
        requires
            self.wf(),
            qubit < self.num_qubits,
        ensures
            outcome == fixed_outcome(self.rows(), self.num_qubits as int, qubit as int),
    {
        let n: usize = self.num_qubits;
        let ghost rows = self.rows();
        let mut scratch: Vec<bool> = clear_row(2 * n + 1);
        assert(scratch@ =~= empty_row(n as int));
        let mut r: usize = 0;
        while r < n
            invariant
                r <= n,
                n == self.num_qubits,
                n <= MAX_STABILIZER_QUBITS,
                qubit < n,
                rows == self.rows(),
                is_tableau(rows, n as int),
                scratch@.len() == 2 * n + 1,
                scratch@ == fixed_product(rows, n as int, qubit as int, r as int),
            decreases n - r,
        {
            assert(self.tableau@[r as int]@ == rows[r as int]);
            assert(self.tableau@[r + n]@ == rows[r + n]);
            if self.tableau[r][qubit] {
                scratch = multiply_rows(&self.tableau[r + n], &scratch, n);
            }
            r = r + 1;
        }
        scratch[2 * n]
    }
}

proof fn lemma_pivot_unique(rows: Seq<Row>, n: int, q: int, p: int)
    requires
        is_pivot(rows, n, q, p),
    ensures
        pivot(rows, n, q) == p,
{
    let other = pivot(rows, n, q);
    assert(is_pivot(rows, n, q, other));
    if other < p {
        assert(!rows[other][q]);
    }
    if p < other {
        assert(!rows[p][q]);
    }
}

/// A row of `width` columns without entries.
fn clear_row(width: usize) -> (r: Vec<bool>)
    ensures
        r@.len() == width,
        forall|c: int| 0 <= c < width ==> !(#[trigger] r@[c]),
{
    let mut row: Vec<bool> = Vec::new();
    let mut c: usize = 0;
    while c < width
        invariant
            c <= width,
            row@.len() == c,
            forall|i: int| 0 <= i < c ==> !(#[trigger] row@[i]),
        decreases width - c,
    {
        row.push(false);
        c = c + 1;
    }
    row
}

/// Takes a row out of a tableau, leaving an empty one.
fn take_row(tableau: &mut Vec<Vec<bool>>, r: usize) -> (row: Vec<bool>)
    requires
        r < old(tableau)@.len(),
    ensures
        row@ == old(tableau)@[r as int]@,
        final(tableau)@.len() == old(tableau)@.len(),
        forall|i: int|
            0 <= i < old(tableau)@.len() && i != r ==> #[trigger] final(tableau)@[i]
                == old(tableau)@[i],
{
    let mut row: Vec<bool> = Vec::new();
    std::mem::swap(&mut tableau[r], &mut row);
    row
}

/// A copy of a row.
fn copy_row(row: &Vec<bool>) -> (r: Vec<bool>)
    ensures
        r@ == row@,
{
    vstd::slice::slice_to_vec(row.as_slice())
}

/// The power of the imaginary unit that the product of two Pauli operators on one qubit picks
/// up. An operator is given by its X and its Z part; both parts together are a Y.
pub fn pauli_phase(x1: bool, z1: bool, x2: bool, z2: bool) -> (r: i32)
    ensures
        r == g_phase(x1, z1, x2, z2),
        -1 <= r <= 1,
{
    if !x1 && !z1 {
        return 0;
    }
    if !x2 && !z2 {
        return 0;
    }
    if x1 && !z1 {
        if x2 && z2 {
            return 1;
        }
        if !x2 && z2 {
            return -1;
        }
    } else if x1 && z1 {
        if !x2 && z2 {
            return 1;
        }
        if x2 && !z2 {
            return -1;
        }
    } else {
        if x2 && !z2 {
            return 1;
        }
        if x2 && z2 {
            return -1;
        }
    }
    0
}

/// The product of two rows.
pub fn multiply_rows(source: &Vec<bool>, target: &Vec<bool>, n: usize) -> (r: Vec<bool>)
    requires
        n <= MAX_STABILIZER_QUBITS,
        source@.len() == 2 * n + 1,
        target@.len() == 2 * n + 1,
    ensures
        r@.len() == 2 * n + 1,
        r@ == product_row(source@, target@, n as int),
{
    let mut phase_exponent: i32 = 0;
    let mut i: usize = 0;
    while i < n
        invariant
            i <= n,
            n <= MAX_STABILIZER_QUBITS,
            source@.len() == 2 * n + 1,
            target@.len() == 2 * n + 1,
            phase_exponent == phase_sum(source@, target@, n as int, i as int),
            -i <= phase_exponent <= i,
        decreases n - i,
    {
        let g: i32 = pauli_phase(source[i], source[i + n], target[i], target[i + n]);
        phase_exponent = phase_exponent + g;
        i = i + 1;
    }
    if source[2 * n] {
        phase_exponent = phase_exponent + 2;
    }
    if target[2 * n] {
        phase_exponent = phase_exponent + 2;
    }
    let sign: bool = is_two_mod_four(phase_exponent);
    let mut row: Vec<bool> = Vec::new();
    let mut c: usize = 0;
    while c < 2 * n
        invariant
            c <= 2 * n,
            n <= MAX_STABILIZER_QUBITS,
            source@.len() == 2 * n + 1,
            target@.len() == 2 * n + 1,
            row@.len() == c,
            forall|j: int| 0 <= j < c ==> #[trigger] row@[j] == target@[j] ^ source@[j],
        decreases 2 * n - c,
    {
        row.push(target[c] ^ source[c]);
        c = c + 1;
    }
    row.push(sign);
    assert(row@ =~= product_row(source@, target@, n as int));
    row
}

/// Whether a number leaves the remainder 2 when it is divided by 4.
fn is_two_mod_four(value: i32) -> (r: bool)
    requires
        value > i32::MIN + 4,
    ensures
        r == (value as int % 4 == 2),
{
    if value >= 0 {
        value % 4 == 2
    } else {
        (-value) % 4 == 2
    }
}

} // verus!
