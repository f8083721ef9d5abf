//! What holds of stabilizer states.

use rand_chacha::ChaCha8Rng;
use vstd::prelude::*;

use crate::stabilizer::{
    cnot_row, collapsed_rows, empty_row, fixed_outcome, fixed_product, g_phase, ground_rows, h_row,
    is_fixed, is_pivot, is_tableau, measured, phase_sum, pivot, product_row, s_row, unit_row, Row,
};

verus! {

/// Two Hadamard gates undo each other.
pub proof fn law_h_undoes_itself(row: Row, n: int, q: int)
    requires
        row.len() == 2 * n + 1,
        0 <= q < n,
    ensures
        h_row(h_row(row, n, q), n, q) == row,
{
    assert(h_row(h_row(row, n, q), n, q) =~= row);
}

/// Four phase gates do nothing.
pub proof fn law_four_s_do_nothing(row: Row, n: int, q: int)
    requires
        row.len() == 2 * n + 1,
        0 <= q < n,
    ensures
        s_row(s_row(s_row(s_row(row, n, q), n, q), n, q), n, q) == row,
{
    assert(s_row(s_row(s_row(s_row(row, n, q), n, q), n, q), n, q) =~= row);
}

/// Two controlled NOTs on the same pair of qubits undo each other.
pub proof fn law_cnot_undoes_itself(row: Row, n: int, control: int, target: int)
    requires
        row.len() == 2 * n + 1,
        0 <= control < n,
        0 <= target < n,
        control != target,
    ensures
        cnot_row(cnot_row(row, n, control, target), n, control, target) == row,
{
    assert(cnot_row(cnot_row(row, n, control, target), n, control, target) =~= row);
}

/// A row after an X gate: its sign flips where it has a Z part.
pub open spec fn x_row(row: Row, n: int, q: int) -> Row {
    row.update(2 * n, row[2 * n] ^ row[q + n])
}

/// A row after a Z gate: its sign flips where it has an X part.
pub open spec fn z_row(row: Row, n: int, q: int) -> Row {
    row.update(2 * n, row[2 * n] ^ row[q])
}

/// Two phase gates make a Z gate.
pub proof fn law_z_from_phase_gates(row: Row, n: int, q: int)
    requires
        row.len() == 2 * n + 1,
        0 <= q < n,
    ensures
        s_row(s_row(row, n, q), n, q) == z_row(row, n, q),
{
    assert(s_row(s_row(row, n, q), n, q) =~= z_row(row, n, q));
}

/// Two phase gates between two Hadamard gates make an X gate.
pub proof fn law_x_from_phase_gates(row: Row, n: int, q: int)
    requires
        row.len() == 2 * n + 1,
        0 <= q < n,
    ensures
        h_row(s_row(s_row(h_row(row, n, q), n, q), n, q), n, q) == x_row(row, n, q),
{
    assert(h_row(s_row(s_row(h_row(row, n, q), n, q), n, q), n, q) =~= x_row(row, n, q));
}

/// The power of the imaginary unit in the product of two Pauli operators: one for `XY`, `YZ`
/// and `ZX`, minus one for the products in the opposite order, zero otherwise.
pub open spec fn pauli_power(x1: bool, z1: bool, x2: bool, z2: bool) -> int {
    if x1 && !z1 && x2 && z2 || x1 && z1 && !x2 && z2 || !x1 && z1 && x2 && !z2 {
        1
    } else if x1 && z1 && x2 && !z2 || !x1 && z1 && x2 && z2 || x1 && !z1 && !x2 && z2 {
        -1
    } else {
        0
    }
}

/// The tabulated power is that of the product of the operators.
pub proof fn law_tabulated_power(x1: bool, z1: bool, x2: bool, z2: bool)
    ensures
        g_phase(x1, z1, x2, z2) == pauli_power(x1, z1, x2, z2),
{
}

/// A complex number whose parts are integers.
pub struct Gaussian {
    pub re: int,
    pub im: int,
}

/// The sum of two such numbers.
pub open spec fn gaussian_sum(a: Gaussian, b: Gaussian) -> Gaussian {
    Gaussian { re: a.re + b.re, im: a.im + b.im }
}

/// The product of two such numbers.
pub open spec fn gaussian_product(a: Gaussian, b: Gaussian) -> Gaussian {
    Gaussian { re: a.re * b.re - a.im * b.im, im: a.re * b.im + a.im * b.re }
}

/// A power of the imaginary unit.
pub open spec fn unit_power(power: int) -> Gaussian {
    if power % 4 == 0 {
        Gaussian { re: 1, im: 0 }
    } else if power % 4 == 1 {
        Gaussian { re: 0, im: 1 }
    } else if power % 4 == 2 {
        Gaussian { re: -1, im: 0 }
    } else {
        Gaussian { re: 0, im: -1 }
    }
}

/// The entry of a Pauli operator in row `r` and column `c`. An operator is given by its X and
/// its Z part; both parts together are a Y.
pub open spec fn pauli_entry(x: bool, z: bool, r: int, c: int) -> Gaussian {
    let none = Gaussian { re: 0, im: 0 };
    if x != (r != c) {
        none
    } else if x && z {
        if r == 0 {
            Gaussian { re: 0, im: -1 }
        } else {
            Gaussian { re: 0, im: 1 }
        }
    } else if z && r == 1 {
        Gaussian { re: -1, im: 0 }
    } else {
        Gaussian { re: 1, im: 0 }
    }
}

pub open spec fn small_product(a: int, b: int) -> int {
    if a == 0 || b == 0 {
        0
    } else if a == b {
        1
    } else {
        -1
    }
}

proof fn lemma_small_product(a: int, b: int)
    requires
        -1 <= a <= 1,
        -1 <= b <= 1,
    ensures
        a * b == small_product(a, b),
{
    if a == 1 {
        assert(1 * b == b);
    } else if a == -1 {
        assert(-1 * b == -b);
    } else {
        assert(0 * b == 0);
    }
}

pub proof fn lemma_small_gaussian(a: Gaussian, b: Gaussian)
    requires
        -1 <= a.re <= 1,
        -1 <= a.im <= 1,
        -1 <= b.re <= 1,
        -1 <= b.im <= 1,
    ensures
        gaussian_product(a, b) == (Gaussian {
            re: small_product(a.re, b.re) - small_product(a.im, b.im),
            im: small_product(a.re, b.im) + small_product(a.im, b.re),
        }),
{
    lemma_small_product(a.re, b.re);
    lemma_small_product(a.im, b.im);
    lemma_small_product(a.re, b.im);
    lemma_small_product(a.im, b.re);
}

/// The product of two Pauli operators, as matrices, is the operator whose parts are combined,
/// times the tabulated power of the imaginary unit.
pub proof fn law_tabulated_power_is_that_of_matrices(
    x1: bool,
    z1: bool,
    x2: bool,
    z2: bool,
    r: int,
    c: int,
)
    requires
        0 <= r < 2,
        0 <= c < 2,
    ensures
        gaussian_sum(
            gaussian_product(pauli_entry(x1, z1, r, 0), pauli_entry(x2, z2, 0, c)),
            gaussian_product(pauli_entry(x1, z1, r, 1), pauli_entry(x2, z2, 1, c)),
        ) == gaussian_product(
            unit_power(g_phase(x1, z1, x2, z2)),
            pauli_entry(x1 ^ x2, z1 ^ z2, r, c),
        ),
{
    lemma_small_gaussian(pauli_entry(x1, z1, r, 0), pauli_entry(x2, z2, 0, c));
    lemma_small_gaussian(pauli_entry(x1, z1, r, 1), pauli_entry(x2, z2, 1, c));
    lemma_small_gaussian(
        unit_power(g_phase(x1, z1, x2, z2)),
        pauli_entry(x1 ^ x2, z1 ^ z2, r, c),
    );
}

/// The power of the imaginary unit in front of a row: one for a positive sign, minus one for a
/// negative sign.
pub open spec fn row_power(row: Row, n: int) -> int {
    if row[2 * n] {
        2
    } else {
        0
    }
}

/// The power of the imaginary unit that the products of the Pauli operators of two rows, qubit
/// by qubit, pick up on the first `count` qubits.
pub open spec fn picked_up(a: Row, b: Row, n: int, count: int) -> int
    decreases count,
{
    if count <= 0 {
        0
    } else {
        picked_up(a, b, n, count - 1) + pauli_power(
            a[count - 1],
            a[count - 1 + n],
            b[count - 1],
            b[count - 1 + n],
        )
    }
}

proof fn lemma_picked_up(a: Row, b: Row, n: int, count: int)
    ensures
        picked_up(a, b, n, count) == phase_sum(a, b, n, count),
    decreases count,
{
    if count > 0 {
        lemma_picked_up(a, b, n, count - 1);
        law_tabulated_power(a[count - 1], a[count - 1 + n], b[count - 1], b[count - 1 + n]);
    }
}

/// The product of two rows that commute is the product of their operators: the parts are
/// combined on every qubit, and the sign is that of the powers that the rows have and pick up.
pub proof fn law_row_product_is_the_pauli_product(source: Row, target: Row, n: int)
    requires
        0 <= n,
        source.len() == 2 * n + 1,
        target.len() == 2 * n + 1,
        !anticommute(source, target, n, n),
    ensures
        ({
            let product = product_row(source, target, n);
            &&& product.len() == 2 * n + 1
            &&& forall|c: int| 0 <= c < 2 * n ==> #[trigger] product[c] == source[c] ^ target[c]
            &&& row_power(product, n) == (row_power(source, n) + row_power(target, n) + picked_up(
                source,
                target,
                n,
                n,
            )) % 4
        }),
{
    lemma_picked_up(source, target, n, n);
    lemma_phase_sum_parity(source, target, n, n);
}

/// Whether the operators of two rows anticommute on an odd number of the first `count`
/// qubits.
pub open spec fn anticommute(a: Row, b: Row, n: int, count: int) -> bool
    decreases count,
{
    if count <= 0 {
        false
    } else {
        anticommute(a, b, n, count - 1) ^ ((a[count - 1] && b[count - 1 + n]) ^ (a[count - 1 + n]
            && b[count - 1]))
    }
}

/// Whether all stabilizers commute with each other.
pub open spec fn stabilizers_commute(rows: Seq<Row>, n: int) -> bool {
    forall|a: int, b: int|
        n <= a < 2 * n && n <= b < 2 * n ==> !#[trigger] anticommute(rows[a], rows[b], n, n)
}

/// How destabilizers and stabilizers pair up in two columns, over the first `count` of them.
pub open spec fn pairing(rows: Seq<Row>, n: int, a: int, b: int, count: int) -> bool
    decreases count,
{
    if count <= 0 {
        false
    } else {
        pairing(rows, n, a, b, count - 1) ^ ((rows[count - 1][a] && rows[count - 1 + n][b]) ^ (
        rows[count - 1 + n][a] && rows[count - 1][b]))
    }
}

/// Whether the X and the Z column of each qubit pair up, and no other columns do.
pub open spec fn columns_pair_up(rows: Seq<Row>, n: int) -> bool {
    forall|a: int, b: int|
        0 <= a < 2 * n && 0 <= b < 2 * n ==> #[trigger] pairing(rows, n, a, b, n) == (a == b + n
            || b == a + n)
}

/// What every tableau that comes from the ground state keeps.
pub open spec fn is_consistent(rows: Seq<Row>, n: int) -> bool {
    &&& is_tableau(rows, n)
    &&& stabilizers_commute(rows, n)
    &&& columns_pair_up(rows, n)
}

proof fn lemma_anticommute_units(n: int, a: int, b: int, count: int)
    requires
        n <= a < 2 * n,
        n <= b < 2 * n,
        0 <= count <= n,
    ensures
        !anticommute(unit_row(n, a), unit_row(n, b), n, count),
    decreases count,
{
    if count > 0 {
        lemma_anticommute_units(n, a, b, count - 1);
    }
}

proof fn lemma_pairing_ground(n: int, a: int, b: int, count: int)
    requires
        0 <= a < 2 * n,
        0 <= b < 2 * n,
        0 <= count <= n,
    ensures
        pairing(ground_rows(n), n, a, b, count) == ((a < count && b == a + n) || (b < count && a
            == b + n)),
    decreases count,
{
    if count > 0 {
        lemma_pairing_ground(n, a, b, count - 1);
    }
}

/// The ground state is consistent.
pub proof fn law_ground_state_is_consistent(n: int)
    requires
        0 <= n,
    ensures
        is_consistent(ground_rows(n), n),
{
    let rows = ground_rows(n);
    assert forall|a: int, b: int| n <= a < 2 * n && n <= b < 2 * n implies !#[trigger] anticommute(
        rows[a],
        rows[b],
        n,
        n,
    ) by {
        lemma_anticommute_units(n, a, b, n);
    }
    assert forall|a: int, b: int| 0 <= a < 2 * n && 0 <= b < 2 * n implies #[trigger] pairing(
        rows,
        n,
        a,
        b,
        n,
    ) == (a == b + n || b == a + n) by {
        lemma_pairing_ground(n, a, b, n);
    }
}

proof fn lemma_anticommute_h(a: Row, b: Row, n: int, q: int, count: int)
    requires
        a.len() == 2 * n + 1,
        b.len() == 2 * n + 1,
        0 <= q < n,
        0 <= count <= n,
    ensures
        anticommute(h_row(a, n, q), h_row(b, n, q), n, count) == anticommute(a, b, n, count),
    decreases count,
{
    if count > 0 {
        lemma_anticommute_h(a, b, n, q, count - 1);
    }
}

proof fn lemma_anticommute_s(a: Row, b: Row, n: int, q: int, count: int)
    requires
        a.len() == 2 * n + 1,
        b.len() == 2 * n + 1,
        0 <= q < n,
        0 <= count <= n,
    ensures
        anticommute(s_row(a, n, q), s_row(b, n, q), n, count) == anticommute(a, b, n, count),
    decreases count,
{
    if count > 0 {
        lemma_anticommute_s(a, b, n, q, count - 1);
    }
}

proof fn lemma_anticommute_cnot(a: Row, b: Row, n: int, control: int, target: int, count: int)
    requires
        a.len() == 2 * n + 1,
        b.len() == 2 * n + 1,
        0 <= control < n,
        0 <= target < n,
        control != target,
        0 <= count <= n,
    ensures
        ({
            let extra = (a[control] && b[target + n]) ^ (a[target + n] && b[control]);
            anticommute(
                cnot_row(a, n, control, target),
                cnot_row(b, n, control, target),
                n,
                count,
            ) == anticommute(a, b, n, count) ^ (control < count && extra) ^ (target < count
                && extra)
        }),
    decreases count,
{
    if count > 0 {
        lemma_anticommute_cnot(a, b, n, control, target, count - 1);
    }
}

/// Two tableaus whose columns `a` and `b` agree with columns `c` and `d` pair them up alike.
proof fn lemma_pairing_same(
    new: Seq<Row>,
    rows: Seq<Row>,
    n: int,
    a: int,
    b: int,
    c: int,
    d: int,
    count: int,
)
    requires
        0 <= count <= n,
        forall|r: int|
            0 <= r < 2 * n ==> (#[trigger] new[r])[a] == rows[r][c] && new[r][b] == rows[r][d],
    ensures
        pairing(new, n, a, b, count) == pairing(rows, n, c, d, count),
    decreases count,
{
    if count > 0 {
        lemma_pairing_same(new, rows, n, a, b, c, d, count - 1);
        assert(new[count - 1][a] == rows[count - 1][c]);
        assert(new[count - 1 + n][a] == rows[count - 1 + n][c]);
    }
}

/// A column that is the sum of two others pairs up like both of them together.
proof fn lemma_pairing_sum(
    new: Seq<Row>,
    rows: Seq<Row>,
    n: int,
    a: int,
    b: int,
    c1: int,
    c2: int,
    d: int,
    count: int,
)
    requires
        0 <= count <= n,
        forall|r: int|
            0 <= r < 2 * n ==> (#[trigger] new[r])[a] == rows[r][c1] ^ rows[r][c2] && new[r][b]
                == rows[r][d],
    ensures
        pairing(new, n, a, b, count) == pairing(rows, n, c1, d, count) ^ pairing(
            rows,
            n,
            c2,
            d,
            count,
        ),
        pairing(new, n, b, a, count) == pairing(rows, n, d, c1, count) ^ pairing(
            rows,
            n,
            d,
            c2,
            count,
        ),
    decreases count,
{
    if count > 0 {
        lemma_pairing_sum(new, rows, n, a, b, c1, c2, d, count - 1);
        assert(new[count - 1][a] == rows[count - 1][c1] ^ rows[count - 1][c2]);
        assert(new[count - 1 + n][a] == rows[count - 1 + n][c1] ^ rows[count - 1 + n][c2]);
    }
}

/// Two columns that are sums of two others each pair up like all four pairs together.
proof fn lemma_pairing_sums(
    new: Seq<Row>,
    rows: Seq<Row>,
    n: int,
    a: int,
    b: int,
    c1: int,
    c2: int,
    d1: int,
    d2: int,
    count: int,
)
    requires
        0 <= count <= n,
        forall|r: int|
            0 <= r < 2 * n ==> (#[trigger] new[r])[a] == rows[r][c1] ^ rows[r][c2] && new[r][b]
                == rows[r][d1] ^ rows[r][d2],
    ensures
        pairing(new, n, a, b, count) == pairing(rows, n, c1, d1, count) ^ pairing(
            rows,
            n,
            c1,
            d2,
            count,
        ) ^ pairing(rows, n, c2, d1, count) ^ pairing(rows, n, c2, d2, count),
    decreases count,
{
    if count > 0 {
        lemma_pairing_sums(new, rows, n, a, b, c1, c2, d1, d2, count - 1);
        assert(new[count - 1][a] == rows[count - 1][c1] ^ rows[count - 1][c2]);
        assert(new[count - 1 + n][a] == rows[count - 1 + n][c1] ^ rows[count - 1 + n][c2]);
    }
}

/// A Hadamard gate keeps a tableau consistent.
pub proof fn law_h_keeps_consistency(rows: Seq<Row>, n: int, q: int)
    requires
        is_consistent(rows, n),
        0 <= q < n,
    ensures
        is_consistent(rows.map_values(|row: Row| h_row(row, n, q)), n),
{
    let new = rows.map_values(|row: Row| h_row(row, n, q));
    assert forall|a: int, b: int| n <= a < 2 * n && n <= b < 2 * n implies !#[trigger] anticommute(
        new[a],
        new[b],
        n,
        n,
    ) by {
        lemma_anticommute_h(rows[a], rows[b], n, q, n);
        assert(!anticommute(rows[a], rows[b], n, n));
    }
    assert forall|a: int, b: int| 0 <= a < 2 * n && 0 <= b < 2 * n implies #[trigger] pairing(
        new,
        n,
        a,
        b,
        n,
    ) == (a == b + n || b == a + n) by {
        let c = if a == q {
            q + n
        } else if a == q + n {
            q
        } else {
            a
        };
        let d = if b == q {
            q + n
        } else if b == q + n {
            q
        } else {
            b
        };
        assert forall|r: int| 0 <= r < 2 * n implies (#[trigger] new[r])[a] == rows[r][c]
            && new[r][b] == rows[r][d] by {
            assert(rows[r].len() == 2 * n + 1);
        }
        lemma_pairing_same(new, rows, n, a, b, c, d, n);
        assert(pairing(rows, n, c, d, n) == (c == d + n || d == c + n));
    }
    assert forall|r: int| 0 <= r < 2 * n implies (#[trigger] new[r]).len() == 2 * n + 1 by {
        assert(rows[r].len() == 2 * n + 1);
    }
}

/// A phase gate keeps a tableau consistent.
pub proof fn law_s_keeps_consistency(rows: Seq<Row>, n: int, q: int)
    requires
        is_consistent(rows, n),
        0 <= q < n,
    ensures
        is_consistent(rows.map_values(|row: Row| s_row(row, n, q)), n),
{
    let new = rows.map_values(|row: Row| s_row(row, n, q));
    let z = q + n;
    assert forall|r: int| 0 <= r < 2 * n implies (#[trigger] new[r]).len() == 2 * n + 1 by {
        assert(rows[r].len() == 2 * n + 1);
    }
    assert forall|a: int, b: int| n <= a < 2 * n && n <= b < 2 * n implies !#[trigger] anticommute(
        new[a],
        new[b],
        n,
        n,
    ) by {
        lemma_anticommute_s(rows[a], rows[b], n, q, n);
        assert(!anticommute(rows[a], rows[b], n, n));
    }
    assert forall|a: int, b: int| 0 <= a < 2 * n && 0 <= b < 2 * n implies #[trigger] pairing(
        new,
        n,
        a,
        b,
        n,
    ) == (a == b + n || b == a + n) by {
        assert forall|r: int, c: int| 0 <= r < 2 * n && 0 <= c < 2 * n implies #[trigger] new[r][c]
            == (if c == z {
            rows[r][z] ^ rows[r][q]
        } else {
            rows[r][c]
        }) by {
            assert(rows[r].len() == 2 * n + 1);
        }
        if a == z && b == z {
            lemma_pairing_sums(new, rows, n, a, b, z, q, z, q, n);
            assert(pairing(rows, n, z, z, n) == false);
            assert(pairing(rows, n, z, q, n) == true);
            assert(pairing(rows, n, q, z, n) == true);
            assert(pairing(rows, n, q, q, n) == false);
        } else if a == z {
            lemma_pairing_sum(new, rows, n, a, b, z, q, b, n);
            assert(pairing(rows, n, z, b, n) == (z == b + n || b == z + n));
            assert(pairing(rows, n, q, b, n) == (q == b + n || b == q + n));
        } else if b == z {
            lemma_pairing_sum(new, rows, n, b, a, z, q, a, n);
            assert(pairing(rows, n, a, z, n) == (a == z + n || z == a + n));
            assert(pairing(rows, n, a, q, n) == (a == q + n || q == a + n));
        } else {
            lemma_pairing_same(new, rows, n, a, b, a, b, n);
            assert(pairing(rows, n, a, b, n) == (a == b + n || b == a + n));
        }
    }
}

/// A controlled NOT on two different qubits keeps a tableau consistent.
pub proof fn law_cnot_keeps_consistency(rows: Seq<Row>, n: int, control: int, target: int)
    requires
        is_consistent(rows, n),
        0 <= control < n,
        0 <= target < n,
        control != target,
    ensures
        is_consistent(rows.map_values(|row: Row| cnot_row(row, n, control, target)), n),
{
    let new = rows.map_values(|row: Row| cnot_row(row, n, control, target));
    assert forall|r: int| 0 <= r < 2 * n implies (#[trigger] new[r]).len() == 2 * n + 1 by {
        assert(rows[r].len() == 2 * n + 1);
    }
    assert forall|a: int, b: int| n <= a < 2 * n && n <= b < 2 * n implies !#[trigger] anticommute(
        new[a],
        new[b],
        n,
        n,
    ) by {
        lemma_anticommute_cnot(rows[a], rows[b], n, control, target, n);
        assert(!anticommute(rows[a], rows[b], n, n));
    }
    assert forall|a: int, b: int| 0 <= a < 2 * n && 0 <= b < 2 * n implies #[trigger] pairing(
        new,
        n,
        a,
        b,
        n,
    ) == (a == b + n || b == a + n) by {
        assert forall|r: int, c: int| 0 <= r < 2 * n && 0 <= c < 2 * n implies #[trigger] new[r][c]
            == (if c == target {
            rows[r][target] ^ rows[r][control]
        } else if c == control + n {
            rows[r][control + n] ^ rows[r][target + n]
        } else {
            rows[r][c]
        }) by {
            assert(rows[r].len() == 2 * n + 1);
        }
        let a_sum = a == target || a == control + n;
        let b_sum = b == target || b == control + n;
        let a2 = if a == target {
            control
        } else {
            target + n
        };
        let b2 = if b == target {
            control
        } else {
            target + n
        };
        assert(pairing(rows, n, a, b, n) == (a == b + n || b == a + n));
        if a_sum && b_sum {
            lemma_pairing_sums(new, rows, n, a, b, a, a2, b, b2, n);
            assert(pairing(rows, n, a, b2, n) == (a == b2 + n || b2 == a + n));
            assert(pairing(rows, n, a2, b, n) == (a2 == b + n || b == a2 + n));
            assert(pairing(rows, n, a2, b2, n) == (a2 == b2 + n || b2 == a2 + n));
        } else if a_sum {
            lemma_pairing_sum(new, rows, n, a, b, a, a2, b, n);
            assert(pairing(rows, n, a2, b, n) == (a2 == b + n || b == a2 + n));
        } else if b_sum {
            lemma_pairing_sum(new, rows, n, b, a, b, b2, a, n);
            assert(pairing(rows, n, a, b2, n) == (a == b2 + n || b2 == a + n));
        } else {
            lemma_pairing_same(new, rows, n, a, b, a, b, n);
        }
    }
}

proof fn lemma_anticommute_symmetric(a: Row, b: Row, n: int, count: int)
    ensures
        anticommute(a, b, n, count) == anticommute(b, a, n, count),
    decreases count,
{
    if count > 0 {
        lemma_anticommute_symmetric(a, b, n, count - 1);
    }
}

/// A row whose operators are the product of two others anticommutes with what exactly one of
/// them anticommutes with.
proof fn lemma_anticommute_product(sum: Row, a: Row, b: Row, x: Row, n: int, count: int)
    requires
        0 <= count <= n,
        forall|c: int| 0 <= c < 2 * n ==> #[trigger] sum[c] == a[c] ^ b[c],
    ensures
        anticommute(sum, x, n, count) == anticommute(a, x, n, count) ^ anticommute(b, x, n, count),
    decreases count,
{
    if count > 0 {
        lemma_anticommute_product(sum, a, b, x, n, count - 1);
        assert(sum[count - 1] == a[count - 1] ^ b[count - 1]);
        assert(sum[count - 1 + n] == a[count - 1 + n] ^ b[count - 1 + n]);
    }
}

/// The single operator Z on `q` anticommutes with the rows that have an X part there.
proof fn lemma_anticommute_z(z: Row, x: Row, n: int, q: int, count: int)
    requires
        0 <= q < n,
        0 <= count <= n,
        forall|c: int| 0 <= c < 2 * n ==> #[trigger] z[c] == (c == q + n),
    ensures
        anticommute(z, x, n, count) == (q < count && x[q]),
    decreases count,
{
    if count > 0 {
        lemma_anticommute_z(z, x, n, q, count - 1);
        assert(z[count - 1] == false);
        assert(z[count - 1 + n] == (count - 1 == q));
    }
}

/// The entries of the rows after a measurement.
proof fn lemma_collapsed_entries(rows: Seq<Row>, n: int, q: int, p: int, outcome: bool)
    requires
        is_tableau(rows, n),
        0 <= q < n,
        is_pivot(rows, n, q, p),
    ensures
        ({
            let new = collapsed_rows(rows, n, q, p, outcome);
            &&& is_tableau(new, n)
            &&& forall|r: int, c: int|
                0 <= r < 2 * n && 0 <= c < 2 * n ==> #[trigger] new[r][c] == (if r == p {
                    c == q + n
                } else if r == p - n {
                    rows[p][c]
                } else {
                    rows[r][c] ^ (rows[r][q] && rows[p][c])
                })
        }),
{
    let new = collapsed_rows(rows, n, q, p, outcome);
    assert forall|r: int| 0 <= r < 2 * n implies (#[trigger] new[r]).len() == 2 * n + 1 by {
        assert(rows[r].len() == 2 * n + 1);
        assert(rows[p].len() == 2 * n + 1);
    }
    assert forall|r: int, c: int| 0 <= r < 2 * n && 0 <= c < 2 * n implies #[trigger] new[r][c] == (
    if r == p {
        c == q + n
    } else if r == p - n {
        rows[p][c]
    } else {
        rows[r][c] ^ (rows[r][q] && rows[p][c])
    }) by {
        assert(rows[r].len() == 2 * n + 1);
    }
}

proof fn lemma_collapsed_pairing(
    rows: Seq<Row>,
    n: int,
    q: int,
    p: int,
    outcome: bool,
    a: int,
    b: int,
    count: int,
)
    requires
        is_tableau(rows, n),
        0 <= q < n,
        is_pivot(rows, n, q, p),
        0 <= a < 2 * n,
        0 <= b < 2 * n,
        0 <= count <= n,
    ensures
        pairing(collapsed_rows(rows, n, q, p, outcome), n, a, b, count) == pairing(
            rows,
            n,
            a,
            b,
            count,
        ) ^ (rows[p][b] && pairing(rows, n, a, q, count)) ^ (rows[p][a] && pairing(
            rows,
            n,
            q,
            b,
            count,
        )) ^ (p - n < count && ((rows[p][a] && b == q + n) ^ (a == q + n && rows[p][b]))),
    decreases count,
{
    let new = collapsed_rows(rows, n, q, p, outcome);
    if count > 0 {
        lemma_collapsed_pairing(rows, n, q, p, outcome, a, b, count - 1);
        lemma_collapsed_entries(rows, n, q, p, outcome);
        let d = count - 1;
        let s = count - 1 + n;
        assert(new[d][a] == (if d == p - n {
            rows[p][a]
        } else {
            rows[d][a] ^ (rows[d][q] && rows[p][a])
        }));
        assert(new[d][b] == (if d == p - n {
            rows[p][b]
        } else {
            rows[d][b] ^ (rows[d][q] && rows[p][b])
        }));
        assert(new[s][a] == (if s == p {
            a == q + n
        } else {
            rows[s][a] ^ (rows[s][q] && rows[p][a])
        }));
        assert(new[s][b] == (if s == p {
            b == q + n
        } else {
            rows[s][b] ^ (rows[s][q] && rows[p][b])
        }));
    }
}

/// A measurement keeps a tableau consistent, whatever its outcome.
pub proof fn law_collapse_keeps_consistency(rows: Seq<Row>, n: int, q: int, p: int, outcome: bool)
    requires
        is_consistent(rows, n),
        0 <= q < n,
        is_pivot(rows, n, q, p),
    ensures
        is_consistent(collapsed_rows(rows, n, q, p, outcome), n),
{
    let new = collapsed_rows(rows, n, q, p, outcome);
    lemma_collapsed_entries(rows, n, q, p, outcome);
    assert forall|a: int, b: int| 0 <= a < 2 * n && 0 <= b < 2 * n implies #[trigger] pairing(
        new,
        n,
        a,
        b,
        n,
    ) == (a == b + n || b == a + n) by {
        lemma_collapsed_pairing(rows, n, q, p, outcome, a, b, n);
        assert(pairing(rows, n, a, b, n) == (a == b + n || b == a + n));
        assert(pairing(rows, n, a, q, n) == (a == q + n || q == a + n));
        assert(pairing(rows, n, q, b, n) == (q == b + n || b == q + n));
    }
    assert forall|a: int, b: int| n <= a < 2 * n && n <= b < 2 * n implies !#[trigger] anticommute(
        new[a],
        new[b],
        n,
        n,
    ) by {
        lemma_collapsed_commute(rows, n, q, p, outcome, a, b);
    }
}

/// The operators of a stabilizer other than the pivot, after a measurement: multiplied with
/// the pivot where they had an X part on the measured qubit.
proof fn lemma_collapsed_against(
    rows: Seq<Row>,
    n: int,
    q: int,
    p: int,
    outcome: bool,
    a: int,
    x: Row,
)
    requires
        is_consistent(rows, n),
        0 <= q < n,
        is_pivot(rows, n, q, p),
        n <= a < 2 * n,
        a != p,
    ensures
        anticommute(collapsed_rows(rows, n, q, p, outcome)[a], x, n, n) == anticommute(
            rows[a],
            x,
            n,
            n,
        ) ^ (rows[a][q] && anticommute(rows[p], x, n, n)),
{
    let new = collapsed_rows(rows, n, q, p, outcome);
    lemma_collapsed_entries(rows, n, q, p, outcome);
    if rows[a][q] {
        assert forall|c: int| 0 <= c < 2 * n implies #[trigger] new[a][c] == rows[a][c]
            ^ rows[p][c] by {}
        lemma_anticommute_product(new[a], rows[a], rows[p], x, n, n);
    } else {
        assert(new[a] == rows[a]);
    }
}

proof fn lemma_collapsed_commute(
    rows: Seq<Row>,
    n: int,
    q: int,
    p: int,
    outcome: bool,
    a: int,
    b: int,
)
    requires
        is_consistent(rows, n),
        0 <= q < n,
        is_pivot(rows, n, q, p),
        n <= a < 2 * n,
        n <= b < 2 * n,
    ensures
        !anticommute(
            collapsed_rows(rows, n, q, p, outcome)[a],
            collapsed_rows(rows, n, q, p, outcome)[b],
            n,
            n,
        ),
{
    let new = collapsed_rows(rows, n, q, p, outcome);
    lemma_collapsed_entries(rows, n, q, p, outcome);
    assert forall|c: int| 0 <= c < 2 * n implies #[trigger] new[p][c] == (c == q + n) by {}
    if a == p {
        lemma_anticommute_z(new[p], new[b], n, q, n);
        assert(!new[b][q]) by {
            if b != p {
                assert(new[b][q] == rows[b][q] ^ (rows[b][q] && rows[p][q]));
            }
        }
    } else if b == p {
        lemma_anticommute_z(new[p], new[a], n, q, n);
        lemma_anticommute_symmetric(new[a], new[p], n, n);
        assert(new[a][q] == rows[a][q] ^ (rows[a][q] && rows[p][q]));
    } else {
        lemma_collapsed_against(rows, n, q, p, outcome, a, new[b]);
        lemma_anticommute_symmetric(rows[a], new[b], n, n);
        lemma_collapsed_against(rows, n, q, p, outcome, b, rows[a]);
        lemma_anticommute_symmetric(rows[p], new[b], n, n);
        lemma_collapsed_against(rows, n, q, p, outcome, b, rows[p]);
        assert(!anticommute(rows[b], rows[a], n, n));
        assert(!anticommute(rows[p], rows[a], n, n));
        assert(!anticommute(rows[b], rows[p], n, n));
        assert(!anticommute(rows[p], rows[p], n, n));
    }
}

/// Where a measurement has no fixed outcome there is a first stabilizer with an X part.
proof fn lemma_pivot_exists(rows: Seq<Row>, n: int, q: int, p: int)
    requires
        n <= p < 2 * n,
        rows[p][q],
    ensures
        is_pivot(rows, n, q, pivot(rows, n, q)),
    decreases p,
{
    if exists|r: int| n <= r < p && (#[trigger] rows[r])[q] {
        let r = choose|r: int| n <= r < p && (#[trigger] rows[r])[q];
        lemma_pivot_exists(rows, n, q, r);
    } else {
        assert(is_pivot(rows, n, q, p));
    }
}

/// A measurement keeps a tableau consistent.
pub proof fn law_measurement_keeps_consistency(rows: Seq<Row>, n: int, q: int, rng: ChaCha8Rng)
    requires
        is_consistent(rows, n),
        0 <= q < n,
    ensures
        is_consistent(measured(rows, n, q, rng).1, n),
{
    if !is_fixed(rows, n, q) {
        let p = choose|r: int| n <= r < 2 * n && (#[trigger] rows[r])[q];
        lemma_pivot_exists(rows, n, q, p);
        law_collapse_keeps_consistency(
            rows,
            n,
            q,
            pivot(rows, n, q),
            measured(rows, n, q, rng).0,
        );
    }
}

pub proof fn lemma_phase_sum_empty(source: Row, n: int, count: int)
    requires
        0 <= count <= n,
    ensures
        phase_sum(source, empty_row(n), n, count) == 0,
    decreases count,
{
    if count > 0 {
        lemma_phase_sum_empty(source, n, count - 1);
    }
}

/// After a collapse only one stabilizer enters the product that fixes the outcome.
proof fn lemma_fixed_product_after_collapse(
    rows: Seq<Row>,
    n: int,
    q: int,
    p: int,
    outcome: bool,
    count: int,
)
    requires
        is_tableau(rows, n),
        0 <= q < n,
        is_pivot(rows, n, q, p),
        0 <= count <= n,
    ensures
        ({
            let new = collapsed_rows(rows, n, q, p, outcome);
            let product = fixed_product(new, n, q, count);
            &&& product.len() == 2 * n + 1
            &&& count <= p - n ==> product == empty_row(n)
            &&& count > p - n ==> product[2 * n] == outcome
        }),
    decreases count,
{
    let new = collapsed_rows(rows, n, q, p, outcome);
    if count > 0 {
        lemma_fixed_product_after_collapse(rows, n, q, p, outcome, count - 1);
        lemma_collapsed_entries(rows, n, q, p, outcome);
        let d = count - 1;
        if d == p - n {
            assert(new[d][q]);
            lemma_phase_sum_empty(new[p], n, n);
        } else {
            assert(new[d][q] == rows[d][q] ^ (rows[d][q] && rows[p][q]));
        }
    }
}

/// Measuring a qubit once more gives the same outcome, draws nothing and changes nothing.
pub proof fn law_second_measurement_repeats_the_first(
    rows: Seq<Row>,
    n: int,
    q: int,
    rng: ChaCha8Rng,
)
    requires
        is_tableau(rows, n),
        0 <= q < n,
    ensures
        ({
            let (first, rows1, rng1) = measured(rows, n, q, rng);
            measured(rows1, n, q, rng1) == (first, rows1, rng1)
        }),
{
    if !is_fixed(rows, n, q) {
        let r = choose|r: int| n <= r < 2 * n && (#[trigger] rows[r])[q];
        lemma_pivot_exists(rows, n, q, r);
        let p = pivot(rows, n, q);
        let first = measured(rows, n, q, rng).0;
        let new = collapsed_rows(rows, n, q, p, first);
        lemma_collapsed_entries(rows, n, q, p, first);
        assert forall|s: int| n <= s < 2 * n implies !(#[trigger] new[s])[q] by {
            if s != p {
                assert(new[s][q] == rows[s][q] ^ (rows[s][q] && rows[p][q]));
            }
        }
        lemma_fixed_product_after_collapse(rows, n, q, p, first, n);
    }
}

/// The powers in a product of rows are even together exactly where the rows commute.
proof fn lemma_phase_sum_parity(a: Row, b: Row, n: int, count: int)
    requires
        0 <= count <= n,
    ensures
        phase_sum(a, b, n, count) % 2 == (if anticommute(a, b, n, count) {
            1int
        } else {
            0int
        }),
    decreases count,
{
    if count > 0 {
        lemma_phase_sum_parity(a, b, n, count - 1);
    }
}

proof fn lemma_anticommute_empty(x: Row, n: int, count: int)
    requires
        0 <= count <= n,
    ensures
        !anticommute(empty_row(n), x, n, count),
    decreases count,
{
    if count > 0 {
        lemma_anticommute_empty(x, n, count - 1);
    }
}

/// A product of stabilizers commutes with every stabilizer.
proof fn lemma_fixed_product_commutes(rows: Seq<Row>, n: int, q: int, count: int, a: int)
    requires
        is_consistent(rows, n),
        0 <= count <= n,
        n <= a < 2 * n,
    ensures
        fixed_product(rows, n, q, count).len() == 2 * n + 1,
        !anticommute(fixed_product(rows, n, q, count), rows[a], n, n),
    decreases count,
{
    if count == 0 {
        lemma_anticommute_empty(rows[a], n, n);
    } else {
        lemma_fixed_product_commutes(rows, n, q, count - 1, a);
        let before = fixed_product(rows, n, q, count - 1);
        let source = rows[count - 1 + n];
        if rows[count - 1][q] {
            let product = product_row(source, before, n);
            assert forall|c: int| 0 <= c < 2 * n implies #[trigger] product[c] == before[c]
                ^ source[c] by {}
            lemma_anticommute_product(product, before, source, rows[a], n, n);
            assert(!anticommute(source, rows[a], n, n));
        }
    }
}

/// Whether an odd number of the stabilizers that enter the product have a Z part on `q`.
spec fn z_parity(rows: Seq<Row>, n: int, q: int, count: int) -> bool
    decreases count,
{
    if count <= 0 {
        false
    } else {
        z_parity(rows, n, q, count - 1) ^ (rows[count - 1][q] && rows[count - 1 + n][q + n])
    }
}

proof fn lemma_z_parity(rows: Seq<Row>, n: int, q: int, count: int)
    requires
        0 <= count <= n,
        is_fixed(rows, n, q),
    ensures
        z_parity(rows, n, q, count) == pairing(rows, n, q, q + n, count),
    decreases count,
{
    if count > 0 {
        lemma_z_parity(rows, n, q, count - 1);
        assert(!rows[count - 1 + n][q]);
    }
}

/// Flipping the signs of the rows with a Z part on `q` flips the sign of the product once for
/// each of them that enters it.
proof fn lemma_flipped_product(rows: Seq<Row>, n: int, q: int, count: int)
    requires
        is_consistent(rows, n),
        0 <= q < n,
        0 <= count <= n,
    ensures
        ({
            let flipped = rows.map_values(|row: Row| x_row(row, n, q));
            let one = fixed_product(rows, n, q, count);
            let two = fixed_product(flipped, n, q, count);
            &&& one.len() == 2 * n + 1
            &&& two.len() == 2 * n + 1
            &&& forall|c: int| 0 <= c < 2 * n ==> #[trigger] two[c] == one[c]
            &&& two[2 * n] == one[2 * n] ^ z_parity(rows, n, q, count)
        }),
    decreases count,
{
    let flipped = rows.map_values(|row: Row| x_row(row, n, q));
    if count > 0 {
        lemma_flipped_product(rows, n, q, count - 1);
        let d = count - 1;
        let source = rows[d + n];
        assert(rows[d].len() == 2 * n + 1);
        assert(source.len() == 2 * n + 1);
        assert(flipped[d][q] == rows[d][q]);
        if rows[d][q] {
            let before = fixed_product(rows, n, q, d);
            let other = fixed_product(flipped, n, q, d);
            lemma_fixed_product_commutes(rows, n, q, d, d + n);
            lemma_anticommute_symmetric(before, source, n, n);
            lemma_phase_sum_parity(source, before, n, n);
            assert(flipped[d + n] == x_row(source, n, q));
            lemma_phase_sum_same(source, before, flipped[d + n], other, n, n);
        }
    }
}

proof fn lemma_phase_sum_same(a: Row, b: Row, c: Row, d: Row, n: int, count: int)
    requires
        0 <= count <= n,
        forall|i: int| 0 <= i < 2 * n ==> #[trigger] a[i] == c[i],
        forall|i: int| 0 <= i < 2 * n ==> #[trigger] b[i] == d[i],
    ensures
        phase_sum(a, b, n, count) == phase_sum(c, d, n, count),
    decreases count,
{
    if count > 0 {
        lemma_phase_sum_same(a, b, c, d, n, count - 1);
        assert(a[count - 1] == c[count - 1] && a[count - 1 + n] == c[count - 1 + n]);
        assert(b[count - 1] == d[count - 1] && b[count - 1 + n] == d[count - 1 + n]);
    }
}

/// An X gate turns the fixed outcome of a measurement of its qubit into the opposite one.
pub proof fn law_x_flips_a_fixed_outcome(rows: Seq<Row>, n: int, q: int)
    requires
        is_consistent(rows, n),
        0 <= q < n,
        is_fixed(rows, n, q),
    ensures
        is_fixed(rows.map_values(|row: Row| x_row(row, n, q)), n, q),
        fixed_outcome(rows.map_values(|row: Row| x_row(row, n, q)), n, q) == !fixed_outcome(
            rows,
            n,
            q,
        ),
{
    let flipped = rows.map_values(|row: Row| x_row(row, n, q));
    lemma_flipped_product(rows, n, q, n);
    lemma_z_parity(rows, n, q, n);
    assert(pairing(rows, n, q, q + n, n) == true);
    assert forall|r: int| n <= r < 2 * n implies !(#[trigger] flipped[r])[q] by {
        assert(!rows[r][q]);
        assert(rows[r].len() == 2 * n + 1);
    }
}

/// After a reset (a measurement, and an X gate where it gave 1) the qubit is 0 for certain:
/// measuring it gives 0 and draws nothing.
pub proof fn law_reset_leaves_zero(rows: Seq<Row>, n: int, q: int, rng: ChaCha8Rng)
    requires
        is_consistent(rows, n),
        0 <= q < n,
    ensures
        ({
            let (one, rows1, rng1) = measured(rows, n, q, rng);
            let rows2 = if one {
                rows1.map_values(|row: Row| x_row(row, n, q))
            } else {
                rows1
            };
            measured(rows2, n, q, rng1) == (false, rows2, rng1)
        }),
{
    let (one, rows1, rng1) = measured(rows, n, q, rng);
    law_measurement_keeps_consistency(rows, n, q, rng);
    law_second_measurement_repeats_the_first(rows, n, q, rng);
    assert(is_fixed(rows1, n, q)) by {
        if !is_fixed(rows, n, q) {
            let r = choose|r: int| n <= r < 2 * n && (#[trigger] rows[r])[q];
            lemma_pivot_exists(rows, n, q, r);
            let p = pivot(rows, n, q);
            lemma_collapsed_entries(rows, n, q, p, one);
            assert forall|s: int| n <= s < 2 * n implies !(#[trigger] rows1[s])[q] by {
                if s != p {
                    assert(rows1[s][q] == rows[s][q] ^ (rows[s][q] && rows[p][q]));
                }
            }
        }
    }
    if one {
        law_x_flips_a_fixed_outcome(rows1, n, q);
    }
}

} // verus!
