//! Two-qubit kernels of matrix product states.

use num_complex::Complex64;
use vstd::prelude::*;

use crate::complex::{
    add_complex, at_most_real, complex_add, complex_div, complex_mul, complex_neg,
    complex_norm_sqr, complex_of, complex_one, complex_sub, div_complex, integer_complex,
    larger_real, less_real, may_be_norm, mul_complex, mul_real, neg_complex, norm_complex,
    norm_sqr_complex, one, real_at_most, real_less, real_max, real_mul, sub_complex, tiny,
    tiny_real, zero,
};

verus! {

/// When the fast kernels are used.
#[derive(Clone, Copy, Debug, PartialEq, Eq, Structural)]
pub enum MpsTwoQKernelMode {
    Off,
    Auto,
    Force,
}

impl MpsTwoQKernelMode {
    /// The name of the mode.
    pub fn as_str(self) -> (r: &'static str)
        ensures
            r@ == match self {
                MpsTwoQKernelMode::Off => "off"@,
                MpsTwoQKernelMode::Auto => "auto"@,
                MpsTwoQKernelMode::Force => "force"@,
            },
    {
        match self {
            MpsTwoQKernelMode::Off => "off",
            MpsTwoQKernelMode::Auto => "auto",
            MpsTwoQKernelMode::Force => "force",
        }
    }

    /// Whether the fast kernels are used at all.
    pub fn enabled(self) -> (r: bool)
        ensures
            r == !(self is Off),
    {
        match self {
            MpsTwoQKernelMode::Off => false,
            _ => true,
        }
    }
}

/// A two-qubit gate.
pub type Matrix4 = [[Complex64; 4]; 4];

/// The four amplitudes of two qubits.
pub type Vector4 = [Complex64; 4];

/// Whether the modulus of a number is at most ten to the power of minus `digits`.
pub open spec fn is_negligible(value: Complex64, digits: nat) -> bool {
    real_at_most(complex_norm_sqr(value), real_mul(tiny(digits), tiny(digits)))
}

/// Whether the modulus of a number is at most a tolerance.
pub fn is_effectively_zero(value: Complex64, tolerance: Complex64) -> (r: bool)
    ensures
        r == real_at_most(complex_norm_sqr(value), real_mul(tolerance, tolerance)),
{
    at_most_real(norm_sqr_complex(value), mul_real(tolerance, tolerance))
}

/// A two-qubit gate in a form that is cheap to apply.
#[derive(Clone, Copy)]
pub enum MpsTwoQKernel {
    /// Each amplitude is multiplied by a number.
    Diagonal(Vector4),
    /// Each amplitude is a multiple of one of the amplitudes before.
    Permutation([(usize, Complex64); 4]),
    /// Any other gate.
    Dense,
}

/// Whether everything off the diagonal is negligible.
pub open spec fn is_diagonal(mat: Matrix4) -> bool {
    forall|row: int, col: int|
        0 <= row < 4 && 0 <= col < 4 && row != col ==> is_negligible(
            #[trigger] mat[row][col],
            14,
        )
}

/// Whether row `row` has its only entry that counts in column `col`.
pub open spec fn is_only_entry(mat: Matrix4, row: int, col: int) -> bool {
    &&& 0 <= col < 4
    &&& !is_negligible(mat[row][col], 14)
    &&& forall|other: int|
        0 <= other < 4 && other != col ==> is_negligible(#[trigger] mat[row][other], 14)
}

/// Whether each of the first `rows` rows has one entry that counts, as `mapping` says, all in
/// different columns.
pub open spec fn is_mapping(mat: Matrix4, mapping: Seq<(usize, Complex64)>, rows: int) -> bool {
    &&& forall|row: int|
        0 <= row < rows ==> is_only_entry(mat, row, (#[trigger] mapping[row]).0 as int)
            && mapping[row].1 == mat[row][mapping[row].0 as int]
    &&& forall|a: int, b: int|
        0 <= a < b < rows ==> (#[trigger] mapping[a]).0 != (#[trigger] mapping[b]).0
}

/// Whether a matrix has one entry that counts in each row, all in different columns.
pub open spec fn is_permutation(mat: Matrix4) -> bool {
    exists|mapping: Seq<(usize, Complex64)>| #[trigger] is_mapping(mat, mapping, 4)
}

/// Whether `kernel` is the cheapest form of a matrix.
pub open spec fn is_kernel_of(mat: Matrix4, kernel: MpsTwoQKernel) -> bool {
    if is_diagonal(mat) {
        kernel matches MpsTwoQKernel::Diagonal(diagonal) && forall|row: int|
            0 <= row < 4 ==> #[trigger] diagonal[row] == mat[row][row]
    } else if is_permutation(mat) {
        kernel matches MpsTwoQKernel::Permutation(mapping) && is_mapping(mat, mapping@, 4)
    } else {
        kernel is Dense
    }
}

/// The diagonal of a matrix, if everything off it is negligible.
pub fn classify_diagonal_2q(mat: &Matrix4) -> (r: Option<Vector4>)
    ensures
        match r {
            Some(diagonal) => is_diagonal(*mat) && forall|row: int|
                0 <= row < 4 ==> #[trigger] diagonal[row] == mat[row][row],
            None => !is_diagonal(*mat),
        },
{
    let tolerance: Complex64 = tiny_real(14);
    let mut row: usize = 0;
    while row < 4
        invariant
            row <= 4,
            tolerance == tiny(14),
            forall|a: int, b: int|
                0 <= a < row && 0 <= b < 4 && a != b ==> is_negligible(#[trigger] mat[a][b], 14),
        decreases 4 - row,
    {
        let mut col: usize = 0;
        while col < 4
            invariant
                row < 4,
                col <= 4,
                tolerance == tiny(14),
                forall|a: int, b: int|
                    0 <= a < row && 0 <= b < 4 && a != b ==> is_negligible(
                        #[trigger] mat[a][b],
                        14,
                    ),
                forall|b: int|
                    0 <= b < col && b != row ==> is_negligible(#[trigger] mat[row as int][b], 14),
            decreases 4 - col,
        {
            if row != col && !is_effectively_zero(mat[row][col], tolerance) {
                assert(!is_negligible(mat[row as int][col as int], 14));
                return None;
            }
            col = col + 1;
        }
        row = row + 1;
    }
    Some([mat[0][0], mat[1][1], mat[2][2], mat[3][3]])
}

/// The column of the only entry that counts in a row.
fn only_column(mat: &Matrix4, row: usize) -> (r: Option<usize>)
    requires
        row < 4,
    ensures
        match r {
            Some(col) => is_only_entry(*mat, row as int, col as int),
            None => forall|col: int| !is_only_entry(*mat, row as int, col),
        },
{
    let tolerance: Complex64 = tiny_real(14);
    let mut found: Option<usize> = None;
    let mut col: usize = 0;
    while col < 4
        invariant
            row < 4,
            col <= 4,
            tolerance == tiny(14),
            match found {
                Some(c) => c < col && !is_negligible(mat[row as int][c as int], 14) && forall|
                    other: int,
                |
                    0 <= other < col && other != c ==> is_negligible(
                        #[trigger] mat[row as int][other],
                        14,
                    ),
                None => forall|other: int|
                    0 <= other < col ==> is_negligible(#[trigger] mat[row as int][other], 14),
            },
        decreases 4 - col,
    {
        if !is_effectively_zero(mat[row][col], tolerance) {
            assert(!is_negligible(mat[row as int][col as int], 14));
            match found {
                Some(c) => {
                    assert forall|any: int| !is_only_entry(*mat, row as int, any) by {
                        if is_only_entry(*mat, row as int, any) {
                            if any != c {
                                assert(is_negligible(mat[row as int][c as int], 14));
                            } else {
                                assert(is_negligible(mat[row as int][col as int], 14));
                            }
                        }
                    }
                    return None;
                },
                None => {
                    found = Some(col);
                },
            }
        }
        col = col + 1;
    }
    found
}

impl MpsTwoQKernel {
    /// Finds the cheapest form of a matrix.
    pub fn classify(mat: &Matrix4) -> (r: MpsTwoQKernel)
        ensures
            is_kernel_of(*mat, r),
            kernel_wf(r),
    {
        match classify_diagonal_2q(mat) {
            Some(diagonal) => {
                return MpsTwoQKernel::Diagonal(diagonal);
            },
            None => {},
        }
        let mut mapping: [(usize, Complex64); 4] = [
            (0, zero()),
            (0, zero()),
            (0, zero()),
            (0, zero()),
        ];
        let mut row: usize = 0;
        while row < 4
            invariant
                row <= 4,
                !is_diagonal(*mat),
                is_mapping(*mat, mapping@, row as int),
            decreases 4 - row,
        {
            match only_column(mat, row) {
                Some(col) => {
                    let mut earlier: usize = 0;
                    while earlier < row
                        invariant
                            earlier <= row < 4,
                            is_only_entry(*mat, row as int, col as int),
                            is_mapping(*mat, mapping@, row as int),
                            !is_diagonal(*mat),
                            forall|a: int| 0 <= a < earlier ==> (#[trigger] mapping@[a]).0 != col,
                        decreases row - earlier,
                    {
                        if mapping[earlier].0 == col {
                            proof {
                                lemma_no_permutation_twice(
                                    *mat,
                                    mapping@,
                                    earlier as int,
                                    row as int,
                                    col as int,
                                );
                            }
                            return MpsTwoQKernel::Dense;
                        }
                        earlier = earlier + 1;
                    }
                    let ghost before = mapping@;
                    mapping[row] = (col, mat[row][col]);
                    assert(mapping@ =~= before.update(
                        row as int,
                        (col, mat[row as int][col as int]),
                    ));
                    assert(is_mapping(*mat, mapping@, row + 1)) by {
                        assert forall|a: int| 0 <= a < row implies (#[trigger] mapping@[a])
                            == before[a] by {}
                    }
                },
                None => {
                    proof {
                        if is_permutation(*mat) {
                            let m = choose|m: Seq<(usize, Complex64)>| #[trigger]
                                is_mapping(*mat, m, 4);
                            assert(is_only_entry(*mat, row as int, m[row as int].0 as int));
                        }
                    }
                    return MpsTwoQKernel::Dense;
                },
            }
            row = row + 1;
        }
        assert forall|row: int| 0 <= row < 4 implies (#[trigger] mapping[row]).0 < 4 by {
            assert(is_only_entry(*mat, row, mapping@[row].0 as int));
        }
        MpsTwoQKernel::Permutation(mapping)
    }
}

proof fn lemma_no_permutation_twice(
    mat: Matrix4,
    mapping: Seq<(usize, Complex64)>,
    a: int,
    b: int,
    col: int,
)
    requires
        0 <= a < b < 4,
        is_mapping(mat, mapping, b),
        is_only_entry(mat, b, col),
        mapping[a].0 == col,
    ensures
        !is_permutation(mat),
{
    if is_permutation(mat) {
        let m = choose|m: Seq<(usize, Complex64)>| #[trigger] is_mapping(mat, m, 4);
        assert(is_only_entry(mat, a, m[a].0 as int));
        assert(is_only_entry(mat, b, m[b].0 as int));
        assert(is_only_entry(mat, a, mapping[a].0 as int));
        assert(m[a].0 == col) by {
            if m[a].0 != col {
                assert(is_negligible(mat[a][col], 14));
            }
        }
        assert(m[b].0 == col) by {
            if m[b].0 != col {
                assert(is_negligible(mat[b][col], 14));
            }
        }
    }
}

/// The index of a basis state of two qubits with the qubits exchanged.
pub open spec fn reversed_index(idx: int) -> int {
    if idx == 1 {
        2
    } else if idx == 2 {
        1
    } else {
        idx
    }
}

/// The index of a basis state of two qubits with the qubits exchanged.
pub fn reverse_basis_index(idx: usize) -> (r: usize)
    requires
        idx < 4,
    ensures
        r == reversed_index(idx as int),
        r < 4,
{
    if idx == 1 {
        2
    } else if idx == 2 {
        1
    } else {
        idx
    }
}

/// Whether `out` is `kernel` with the two qubits exchanged.
pub open spec fn is_reversed_kernel(kernel: MpsTwoQKernel, out: MpsTwoQKernel) -> bool {
    match kernel {
        MpsTwoQKernel::Diagonal(diagonal) => out matches MpsTwoQKernel::Diagonal(reversed)
            && forall|row: int|
            0 <= row < 4 ==> #[trigger] reversed[row] == diagonal[reversed_index(row)],
        MpsTwoQKernel::Permutation(mapping) => out matches MpsTwoQKernel::Permutation(reversed)
            && forall|row: int|
            0 <= row < 4 ==> (#[trigger] reversed[row]).0 == reversed_index(
                mapping[reversed_index(row)].0 as int,
            ) && reversed[row].1 == mapping[reversed_index(row)].1,
        MpsTwoQKernel::Dense => out is Dense,
    }
}

/// Whether the columns that a kernel names exist.
pub open spec fn kernel_wf(kernel: MpsTwoQKernel) -> bool {
    kernel matches MpsTwoQKernel::Permutation(mapping) ==> forall|row: int|
        0 <= row < 4 ==> (#[trigger] mapping[row]).0 < 4
}

/// Exchanges the two qubits of a kernel.
pub fn reverse_2q_kernel_order(kernel: MpsTwoQKernel) -> (r: MpsTwoQKernel)
    requires
        kernel_wf(kernel),
    ensures
        is_reversed_kernel(kernel, r),
        kernel_wf(r),
{
    match kernel {
        MpsTwoQKernel::Diagonal(d) => {
            let reversed: Vector4 = [d[0], d[2], d[1], d[3]];
            MpsTwoQKernel::Diagonal(reversed)
        },
        MpsTwoQKernel::Permutation(m) => {
            assert(m[0].0 < 4 && m[1].0 < 4 && m[2].0 < 4 && m[3].0 < 4);
            let reversed: [(usize, Complex64); 4] = [
                (reverse_basis_index(m[0].0), m[0].1),
                (reverse_basis_index(m[2].0), m[2].1),
                (reverse_basis_index(m[1].0), m[1].1),
                (reverse_basis_index(m[3].0), m[3].1),
            ];
            MpsTwoQKernel::Permutation(reversed)
        },
        MpsTwoQKernel::Dense => MpsTwoQKernel::Dense,
    }
}

/// Whether `out` is `mat` with the two qubits exchanged.
pub open spec fn is_reversed_matrix(mat: Matrix4, out: Matrix4) -> bool {
    forall|row: int, col: int|
        0 <= row < 4 && 0 <= col < 4 ==> #[trigger] out[row][col] == mat[reversed_index(
            row,
        )][reversed_index(col)]
}

/// Exchanges the two qubits of a gate.
pub fn reverse_2q_order(mat: &Matrix4) -> (out: Matrix4)
    ensures
        is_reversed_matrix(*mat, out),
{
    [
        [mat[0][0], mat[0][2], mat[0][1], mat[0][3]],
        [mat[2][0], mat[2][2], mat[2][1], mat[2][3]],
        [mat[1][0], mat[1][2], mat[1][1], mat[1][3]],
        [mat[3][0], mat[3][2], mat[3][1], mat[3][3]],
    ]
}

/// Exchanging the two qubits of a gate twice gives it back unchanged.
pub proof fn law_reversing_twice_restores(mat: Matrix4, once: Matrix4, twice: Matrix4)
    requires
        is_reversed_matrix(mat, once),
        is_reversed_matrix(once, twice),
    ensures
        forall|row: int, col: int|
            0 <= row < 4 && 0 <= col < 4 ==> #[trigger] twice[row][col] == mat[row][col],
{
    assert forall|row: int, col: int| 0 <= row < 4 && 0 <= col < 4 implies #[trigger] twice[row][col]
        == mat[row][col] by {
        assert(once[reversed_index(row)][reversed_index(col)] == mat[reversed_index(
            reversed_index(row),
        )][reversed_index(reversed_index(col))]);
    }
}

/// Whether a kernel is that of a controlled NOT.
pub open spec fn is_cnot_kernel(kernel: MpsTwoQKernel) -> bool {
    kernel matches MpsTwoQKernel::Permutation(m) && m@ == seq![
        (0usize, complex_one()),
        (1usize, complex_one()),
        (3usize, complex_one()),
        (2usize, complex_one()),
    ]
}

/// The kernel of a controlled NOT.
pub fn cnot_kernel() -> (r: MpsTwoQKernel)
    ensures
        kernel_wf(r),
        is_cnot_kernel(r),
{
    let m: [(usize, Complex64); 4] = [(0, one()), (1, one()), (3, one()), (2, one())];
    assert(m@ =~= seq![
        (0usize, complex_one()),
        (1usize, complex_one()),
        (3usize, complex_one()),
        (2usize, complex_one()),
    ]);
    MpsTwoQKernel::Permutation(m)
}

/// Whether a kernel is that of a controlled Y.
pub open spec fn is_cy_kernel(kernel: MpsTwoQKernel) -> bool {
    kernel matches MpsTwoQKernel::Permutation(m) && m@ == seq![
        (0usize, complex_one()),
        (1usize, complex_one()),
        (3usize, complex_neg(complex_of(0, 1))),
        (2usize, complex_of(0, 1)),
    ]
}

/// The kernel of a controlled Y.
pub fn cy_kernel() -> (r: MpsTwoQKernel)
    ensures
        kernel_wf(r),
        is_cy_kernel(r),
{
    let i: Complex64 = integer_complex(0, 1);
    let m: [(usize, Complex64); 4] = [(0, one()), (1, one()), (3, neg_complex(i)), (2, i)];
    assert(m@ =~= seq![
        (0usize, complex_one()),
        (1usize, complex_one()),
        (3usize, complex_neg(complex_of(0, 1))),
        (2usize, complex_of(0, 1)),
    ]);
    MpsTwoQKernel::Permutation(m)
}

/// Whether a kernel is that of a controlled Z.
pub open spec fn is_cz_kernel(kernel: MpsTwoQKernel) -> bool {
    kernel matches MpsTwoQKernel::Diagonal(m) && m@ == seq![
        complex_one(),
        complex_one(),
        complex_one(),
        complex_of(-1, 0),
    ]
}

/// The kernel of a controlled Z.
pub fn cz_kernel() -> (r: MpsTwoQKernel)
    ensures
        kernel_wf(r),
        is_cz_kernel(r),
{
    let d: Vector4 = [one(), one(), one(), integer_complex(-1, 0)];
    assert(d@ =~= seq![complex_one(), complex_one(), complex_one(), complex_of(-1, 0)]);
    MpsTwoQKernel::Diagonal(d)
}

/// Whether a kernel is that of a SWAP.
pub open spec fn is_swap_kernel(kernel: MpsTwoQKernel) -> bool {
    kernel matches MpsTwoQKernel::Permutation(m) && m@ == seq![
        (0usize, complex_one()),
        (2usize, complex_one()),
        (1usize, complex_one()),
        (3usize, complex_one()),
    ]
}

/// The kernel of a SWAP.
pub fn swap_kernel() -> (r: MpsTwoQKernel)
    ensures
        kernel_wf(r),
        is_swap_kernel(r),
{
    let m: [(usize, Complex64); 4] = [(0, one()), (2, one()), (1, one()), (3, one())];
    assert(m@ =~= seq![
        (0usize, complex_one()),
        (2usize, complex_one()),
        (1usize, complex_one()),
        (3usize, complex_one()),
    ]);
    MpsTwoQKernel::Permutation(m)
}

/// The sum of the products of a row with four amplitudes, added up in order.
pub open spec fn dense_sum(mat: Matrix4, row: int, input: Seq<Complex64>) -> Complex64 {
    complex_add(
        complex_add(
            complex_add(
                complex_mul(mat[row][0], input[0]),
                complex_mul(mat[row][1], input[1]),
            ),
            complex_mul(mat[row][2], input[2]),
        ),
        complex_mul(mat[row][3], input[3]),
    )
}

/// The amplitude at `row` after a kernel.
pub open spec fn kernel_amplitude(
    kernel: MpsTwoQKernel,
    mat: Matrix4,
    input: Seq<Complex64>,
    row: int,
) -> Complex64 {
    match kernel {
        MpsTwoQKernel::Diagonal(diagonal) => complex_mul(diagonal[row], input[row]),
        MpsTwoQKernel::Permutation(mapping) => complex_mul(
            mapping[row].1,
            input[mapping[row].0 as int],
        ),
        MpsTwoQKernel::Dense => dense_sum(mat, row, input),
    }
}

/// Applies a kernel to four amplitudes; a dense one is given by its matrix.
pub fn apply_mps_2q_kernel(kernel: MpsTwoQKernel, mat: &Matrix4, input: Vector4) -> (out: Vector4)
    requires
        kernel_wf(kernel),
    ensures
        forall|row: int|
            0 <= row < 4 ==> #[trigger] out[row] == kernel_amplitude(kernel, *mat, input@, row),
{
    [
        kernel_entry(kernel, mat, input, 0),
        kernel_entry(kernel, mat, input, 1),
        kernel_entry(kernel, mat, input, 2),
        kernel_entry(kernel, mat, input, 3),
    ]
}

fn kernel_entry(kernel: MpsTwoQKernel, mat: &Matrix4, input: Vector4, row: usize) -> (r: Complex64)
    requires
        kernel_wf(kernel),
        row < 4,
    ensures
        r == kernel_amplitude(kernel, *mat, input@, row as int),
{
    match kernel {
        MpsTwoQKernel::Diagonal(diagonal) => mul_complex(diagonal[row], input[row]),
        MpsTwoQKernel::Permutation(mapping) => {
            let (column, scale): (usize, Complex64) = mapping[row];
            assert(mapping[row as int].0 < 4);
            mul_complex(scale, input[column])
        },
        MpsTwoQKernel::Dense => {
            let first: Complex64 = add_complex(
                mul_complex(mat[row][0], input[0]),
                mul_complex(mat[row][1], input[1]),
            );
            let second: Complex64 = add_complex(first, mul_complex(mat[row][2], input[2]));
            add_complex(second, mul_complex(mat[row][3], input[3]))
        },
    }
}

/// Applying a diagonal or permuting kernel with its qubits exchanged, to amplitudes with their
/// qubits exchanged, gives what the kernel gives, with the qubits exchanged.
pub proof fn law_reversed_kernel_acts_alike(
    kernel: MpsTwoQKernel,
    reversed: MpsTwoQKernel,
    mat: Matrix4,
    input: Seq<Complex64>,
    swapped: Seq<Complex64>,
    row: int,
)
    requires
        kernel_wf(kernel),
        !(kernel is Dense),
        is_reversed_kernel(kernel, reversed),
        forall|i: int| 0 <= i < 4 ==> #[trigger] swapped[i] == input[reversed_index(i)],
        0 <= row < 4,
    ensures
        kernel_amplitude(reversed, mat, swapped, row) == kernel_amplitude(
            kernel,
            mat,
            input,
            reversed_index(row),
        ),
{
    match kernel {
        MpsTwoQKernel::Diagonal(diagonal) => {
            match reversed {
                MpsTwoQKernel::Diagonal(other) => {
                    assert(other[row] == diagonal[reversed_index(row)]);
                    assert(swapped[row] == input[reversed_index(row)]);
                },
                _ => {},
            }
        },
        MpsTwoQKernel::Permutation(mapping) => {
            match reversed {
                MpsTwoQKernel::Permutation(other) => {
                    let source = mapping[reversed_index(row)];
                    assert(source.0 < 4);
                    assert(other[row].0 == reversed_index(source.0 as int));
                    assert(swapped[other[row].0 as int] == input[reversed_index(
                        reversed_index(source.0 as int),
                    )]);
                },
                _ => {},
            }
        },
        MpsTwoQKernel::Dense => {},
    }
}

/// Whether the place `k` is the first of some amplitudes that is not negligible.
pub open spec fn is_first_entry(values: Seq<Complex64>, k: int) -> bool {
    &&& 0 <= k < values.len()
    &&& !is_negligible(values[k], 12)
    &&& forall|i: int| 0 <= i < k ==> is_negligible(#[trigger] values[i], 12)
}

/// Finds the first of some amplitudes that is not negligible.
pub fn first_entry(values: &[Complex64]) -> (r: Option<usize>)
    ensures
        match r {
            Some(k) => is_first_entry(values@, k as int),
            None => forall|i: int|
                0 <= i < values@.len() ==> is_negligible(#[trigger] values@[i], 12),
        },
{
    let tolerance: Complex64 = tiny_real(12);
    let mut i: usize = 0;
    while i < values.len()
        invariant
            i <= values@.len(),
            tolerance == tiny(12),
            forall|j: int| 0 <= j < i ==> is_negligible(#[trigger] values@[j], 12),
        decreases values@.len() - i,
    {
        if !is_effectively_zero(values[i], tolerance) {
            return Some(i);
        }
        i = i + 1;
    }
    None
}

/// The scale against which a deviation from a product is measured: the largest of four moduli,
/// and at least one.
pub open spec fn deviation_scale(
    a: Complex64,
    b: Complex64,
    c: Complex64,
    d: Complex64,
) -> Complex64 {
    real_max(real_max(real_max(real_max(a, b), c), d), complex_one())
}

/// Whether a deviation is larger than `1e-12` times the square of the scale of four moduli.
pub open spec fn is_deviant(
    deviation: Complex64,
    a: Complex64,
    b: Complex64,
    c: Complex64,
    d: Complex64,
) -> bool {
    let scale = deviation_scale(a, b, c, d);
    real_less(real_mul(real_mul(tiny(12), scale), scale), deviation)
}

/// Whether a deviation is larger than `1e-12` times the square of the scale of four moduli.
pub fn deviates(
    deviation: Complex64,
    a: Complex64,
    b: Complex64,
    c: Complex64,
    d: Complex64,
) -> (r: bool)
    ensures
        r == is_deviant(deviation, a, b, c, d),
{
    let scale: Complex64 = larger_real(
        larger_real(larger_real(larger_real(a, b), c), d),
        one(),
    );
    less_real(mul_real(mul_real(tiny_real(12), scale), scale), deviation)
}

/// Whether five numbers can be the modulus of `value * pivot - row * col` and the moduli of
/// the four numbers in it.
pub open spec fn are_moduli(
    value: Complex64,
    pivot: Complex64,
    row: Complex64,
    col: Complex64,
    moduli: Seq<Complex64>,
) -> bool {
    &&& moduli.len() == 5
    &&& may_be_norm(complex_sub(complex_mul(value, pivot), complex_mul(row, col)), moduli[0])
    &&& may_be_norm(value, moduli[1])
    &&& may_be_norm(row, moduli[2])
    &&& may_be_norm(col, moduli[3])
    &&& may_be_norm(pivot, moduli[4])
}

/// Whether `verdict` can come out when `value * pivot` and `row * col` are compared: it tells
/// whether they are close, judged by their moduli.
pub open spec fn reads_as_close(
    value: Complex64,
    pivot: Complex64,
    row: Complex64,
    col: Complex64,
    verdict: bool,
) -> bool {
    exists|moduli: Seq<Complex64>| #[trigger]
        are_moduli(value, pivot, row, col, moduli) && verdict == !is_deviant(
            moduli[0],
            moduli[1],
            moduli[2],
            moduli[3],
            moduli[4],
        )
}

/// Whether `value * pivot` and `row * col` are close.
pub fn is_close_product(value: Complex64, pivot: Complex64, row: Complex64, col: Complex64) -> (r:
    bool)
    ensures
        reads_as_close(value, pivot, row, col, r),
{
    let lhs: Complex64 = mul_complex(value, pivot);
    let rhs: Complex64 = mul_complex(row, col);
    let gap: Complex64 = norm_complex(sub_complex(lhs, rhs));
    let a: Complex64 = norm_complex(value);
    let b: Complex64 = norm_complex(row);
    let c: Complex64 = norm_complex(col);
    let d: Complex64 = norm_complex(pivot);
    assert(are_moduli(value, pivot, row, col, seq![gap, a, b, c, d]));
    !deviates(gap, a, b, c, d)
}

/// Whether `left` and `right` are the factors read off at place `k` of four amplitudes.
pub open spec fn are_factors(
    output: Seq<Complex64>,
    k: int,
    left: Seq<Complex64>,
    right: Seq<Complex64>,
) -> bool {
    &&& left.len() == 2 && right.len() == 2
    &&& left[0] == complex_div(output[k % 2], output[k])
    &&& left[1] == complex_div(output[2 + k % 2], output[k])
    &&& right[0] == output[2 * (k / 2)]
    &&& right[1] == output[2 * (k / 2) + 1]
}

/// Whether the amplitude at place `i` can be judged to be, or not to be, the product of the
/// factors read off at place `k`.
pub open spec fn judged(output: Seq<Complex64>, k: int, i: int, verdict: bool) -> bool {
    reads_as_close(
        output[i],
        output[k],
        output[2 * (i / 2) + k % 2],
        output[2 * (k / 2) + i % 2],
        verdict,
    )
}

/// Whether four amplitudes can be split into `left` and `right`: read off at the first
/// amplitude that is not negligible, with every amplitude judged to be a product.
pub open spec fn splits_into(
    output: Seq<Complex64>,
    left: Seq<Complex64>,
    right: Seq<Complex64>,
) -> bool {
    exists|k: int| #[trigger]
        is_first_entry(output, k) && are_factors(output, k, left, right) && forall|i: int|
            0 <= i < 4 ==> #[trigger] judged(output, k, i, true)
}

/// Whether four amplitudes can be judged not to split: all are negligible, or one is judged
/// not to be a product.
pub open spec fn splits_not(output: Seq<Complex64>) -> bool {
    ||| forall|i: int| 0 <= i < 4 ==> is_negligible(#[trigger] output[i], 12)
    ||| exists|k: int, i: int|
        is_first_entry(output, k) && 0 <= i < 4 && #[trigger] judged(output, k, i, false)
}

/// Splits the amplitudes of two qubits into those of each, if they are a product.
pub fn factor_product_state_2x2(output: Vector4) -> (r: Option<([Complex64; 2], [Complex64; 2])>)
    ensures
        match r {
            Some((left, right)) => splits_into(output@, left@, right@),
            None => splits_not(output@),
        },
{
    let k: usize = match first_entry(output.as_slice()) {
        Some(k) => k,
        None => {
            return None;
        },
    };
    let pivot_row: usize = k / 2;
    let pivot_col: usize = k % 2;
    let pivot: Complex64 = output[k];
    let mut i: usize = 0;
    while i < 4
        invariant
            i <= 4,
            is_first_entry(output@, k as int),
            k < 4,
            pivot_row == k / 2,
            pivot_col == k % 2,
            pivot == output@[k as int],
            forall|j: int| 0 <= j < i ==> #[trigger] judged(output@, k as int, j, true),
        decreases 4 - i,
    {
        let row: usize = i / 2;
        let col: usize = i % 2;
        if !is_close_product(
            output[i],
            pivot,
            output[row * 2 + pivot_col],
            output[pivot_row * 2 + col],
        ) {
            assert(judged(output@, k as int, i as int, false));
            return None;
        }
        assert(judged(output@, k as int, i as int, true));
        i = i + 1;
    }
    let left: [Complex64; 2] = [
        div_complex(output[pivot_col], pivot),
        div_complex(output[2 + pivot_col], pivot),
    ];
    let right: [Complex64; 2] = [output[pivot_row * 2], output[pivot_row * 2 + 1]];
    assert(are_factors(output@, k as int, left@, right@));
    Some((left, right))
}

} // verus!
