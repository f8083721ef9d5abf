//! Gates on several qubits.
//!
//! The first qubit of a gate is the most significant bit of its own index space, the
//! last one its least significant bit.

use num_complex::Complex64;
use vstd::prelude::*;

use crate::bits::{
    bit_mask, bit_set, dimension, lemma_bit_ops, lemma_combine_below, lemma_dimension_positive,
    lemma_dimension_step, lemma_join, lemma_mask_below, lemma_mask_bit, lemma_split,
};
use crate::complex::{add_complex, complex_add, complex_mul, complex_zero, mul_complex, zero};
use crate::engine::{mask_of, qubit_mask};

verus! {

/// The index in a gate's own index space that a basis state has.
pub open spec fn gate_index(i: usize, qubits: Seq<usize>) -> nat
    decreases qubits.len(),
{
    if qubits.len() == 0 {
        0
    } else {
        2 * gate_index(i, qubits.drop_last()) + if bit_set(i, qubits.last()) {
            1nat
        } else {
            0nat
        }
    }
}

/// The bits of a basis state that a gate index stands for.
pub open spec fn gate_offset(j: nat, qubits: Seq<usize>) -> usize
    decreases qubits.len(),
{
    if qubits.len() == 0 {
        0
    } else {
        gate_offset(j / 2, qubits.drop_last()) | if j % 2 == 1 {
            bit_mask(qubits.last())
        } else {
            0
        }
    }
}

/// Whether every qubit is a valid bit position.
pub open spec fn qubits_fit(qubits: Seq<usize>, n: int) -> bool {
    forall|j: int| 0 <= j < qubits.len() ==> #[trigger] qubits[j] < n
}

proof fn lemma_qubits_fit_rest(qubits: Seq<usize>, n: int)
    requires
        qubits.len() > 0,
        qubits_fit(qubits, n),
    ensures
        qubits_fit(qubits.drop_last(), n),
        qubits.last() < n,
{
    assert(qubits[qubits.len() - 1] < n);
    assert forall|j: int| 0 <= j < qubits.drop_last().len() implies #[trigger] qubits.drop_last()[j]
        < n by {
        assert(qubits[j] < n);
    }
}

/// A gate index is below the dimension of its matrix.
pub proof fn lemma_gate_index_below(i: usize, qubits: Seq<usize>)
    requires
        qubits.len() < usize::BITS,
    ensures
        gate_index(i, qubits) < dimension(qubits.len() as usize),
    decreases qubits.len(),
{
    if qubits.len() == 0 {
        lemma_dimension_step(0);
    } else {
        lemma_gate_index_below(i, qubits.drop_last());
        lemma_dimension_step((qubits.len() - 1) as usize);
    }
}

/// The bits of an offset lie among the given qubits, and within `n` qubits.
pub proof fn lemma_gate_offset_inside(j: nat, qubits: Seq<usize>, n: usize)
    requires
        n < usize::BITS,
        qubits_fit(qubits, n as int),
    ensures
        gate_offset(j, qubits) & !mask_of(qubits) == 0,
        gate_offset(j, qubits) < dimension(n),
    decreases qubits.len(),
{
    if qubits.len() == 0 {
        assert(0usize & !0usize == 0) by (bit_vector);
        lemma_dimension_positive(n);
    } else {
        lemma_qubits_fit_rest(qubits, n as int);
        lemma_gate_offset_inside(j / 2, qubits.drop_last(), n);
        lemma_offset_grows(
            gate_offset(j / 2, qubits.drop_last()),
            mask_of(qubits.drop_last()),
            bit_mask(qubits.last()),
        );
        lemma_mask_below(qubits.last(), n);
        lemma_dimension_positive(n);
        lemma_combine_below(
            gate_offset(j / 2, qubits.drop_last()),
            if j % 2 == 1 {
                bit_mask(qubits.last())
            } else {
                0
            },
            n,
        );
    }
}

proof fn lemma_offset_grows(offset: usize, mask: usize, bit: usize)
    by (bit_vector)
    requires
        offset & !mask == 0,
    ensures
        (offset | bit) & !(mask | bit) == 0,
        (offset | 0) & !(mask | bit) == 0,
{
}

/// A gate index leads back to the bits it was read from.
pub proof fn lemma_offset_of_index(i: usize, qubits: Seq<usize>)
    requires
        qubits_fit(qubits, usize::BITS as int),
    ensures
        gate_offset(gate_index(i, qubits), qubits) == i & mask_of(qubits),
    decreases qubits.len(),
{
    if qubits.len() == 0 {
        assert(i & 0usize == 0) by (bit_vector);
    } else {
        lemma_qubits_fit_rest(qubits, usize::BITS as int);
        lemma_offset_of_index(i, qubits.drop_last());
        let q = qubits.last();
        let rest = mask_of(qubits.drop_last());
        let j = gate_index(i, qubits);
        assert(j / 2 == gate_index(i, qubits.drop_last()));
        assert((j % 2 == 1) == bit_set(i, q));
        lemma_mask_step(i, rest, q);
    }
}

proof fn lemma_mask_step(i: usize, mask: usize, q: usize)
    by (bit_vector)
    requires
        q < usize::BITS,
    ensures
        i & (1usize << q) != 0 ==> i & (mask | (1usize << q)) == (i & mask) | (1usize << q),
        i & (1usize << q) == 0 ==> i & (mask | (1usize << q)) == (i & mask) | 0,
{
}

/// Among all indices that stand for the same bits, the one that is read from them is
/// the largest. (Only a gate that names a qubit twice has several.)
proof fn lemma_index_is_largest(j: nat, i: usize, qubits: Seq<usize>)
    requires
        qubits_fit(qubits, usize::BITS as int),
        forall|q: usize|
            q < usize::BITS && bit_set(gate_offset(j, qubits), q) ==> bit_set(i, q),
        j < dimension(qubits.len() as usize),
        qubits.len() < usize::BITS,
    ensures
        j <= gate_index(i, qubits),
    decreases qubits.len(),
{
    if qubits.len() == 0 {
        lemma_dimension_step(0);
    } else {
        lemma_qubits_fit_rest(qubits, usize::BITS as int);
        let rest = qubits.drop_last();
        let last = qubits.last();
        let part = if j % 2 == 1 {
            bit_mask(last)
        } else {
            0
        };
        lemma_dimension_step((qubits.len() - 1) as usize);
        assert forall|q: usize| q < usize::BITS && bit_set(gate_offset(j / 2, rest), q) implies bit_set(
            i,
            q,
        ) by {
            lemma_bit_ops(gate_offset(j / 2, rest), part, q);
            assert(bit_set(gate_offset(j, qubits), q));
        }
        lemma_index_is_largest(j / 2, i, rest);
        if j % 2 == 1 {
            lemma_bit_ops(gate_offset(j / 2, rest), part, last);
            lemma_mask_bit(last, last);
            assert(bit_set(gate_offset(j, qubits), last));
        }
    }
}

/// The sum of the first `cols` products of a matrix row with a vector, added up from zero.
pub open spec fn row_sum(row: Seq<Complex64>, v: Seq<Complex64>, cols: nat) -> Complex64
    decreases cols,
{
    if cols == 0 {
        complex_zero()
    } else {
        complex_add(
            row_sum(row, v, (cols - 1) as nat),
            complex_mul(row[cols - 1], v[cols - 1]),
        )
    }
}

/// The amplitudes that a gate reads where the other qubits have the values in `base`.
pub open spec fn gate_input(s: Seq<Complex64>, base: usize, qubits: Seq<usize>) -> Seq<Complex64> {
    Seq::new(
        dimension(qubits.len() as usize) as nat,
        |j: int| s[(base | gate_offset(j as nat, qubits)) as int],
    )
}

/// The state after a gate on several qubits.
pub open spec fn n_qubit_applied(
    s: Seq<Complex64>,
    u: Seq<Vec<Complex64>>,
    qubits: Seq<usize>,
    n: usize,
) -> Seq<Complex64> {
    Seq::new(
        s.len(),
        |i: int|
            if i < dimension(n) {
                row_sum(
                    u[gate_index(i as usize, qubits) as int]@,
                    gate_input(s, i as usize & !mask_of(qubits), qubits),
                    dimension(qubits.len() as usize) as nat,
                )
            } else {
                s[i]
            },
    )
}

/// Whether `u` has the rows and columns that a gate on `k` qubits needs.
pub open spec fn is_gate_matrix(u: Seq<Vec<Complex64>>, k: nat) -> bool {
    &&& dimension(k as usize) <= u.len()
    &&& forall|r: int|
        0 <= r < dimension(k as usize) ==> dimension(k as usize) <= (#[trigger] u[r])@.len()
}

/// The bits of a basis state that the index `j` stands for.
fn offset_of(j: usize, qubits: &[usize]) -> (offset: usize)
    requires
        qubits_fit(qubits@, usize::BITS as int),
    ensures
        offset == gate_offset(j as nat, qubits@),
{
    let mut offset: usize = 0;
    let mut rest: usize = j;
    let mut bit: usize = qubits.len();
    assert(qubits@.take(bit as int) =~= qubits@);
    proof {
        lemma_or_zero(gate_offset(j as nat, qubits@), 0, 0);
    }
    while bit > 0
        invariant
            bit <= qubits@.len(),
            qubits_fit(qubits@, usize::BITS as int),
            gate_offset(rest as nat, qubits@.take(bit as int)) | offset == gate_offset(
                j as nat,
                qubits@,
            ),
        decreases bit,
    {
        let q: usize = qubits[bit - 1];
        proof {
            let now = qubits@.take(bit as int);
            assert(now.drop_last() =~= qubits@.take(bit - 1));
            assert(now.last() == q);
            lemma_or_zero(gate_offset((rest / 2) as nat, now.drop_last()), bit_mask(q), offset);
        }
        if rest % 2 == 1 {
            offset = (1usize << q) | offset;
        }
        rest = rest / 2;
        bit = bit - 1;
    }
    proof {
        lemma_or_zero(offset, 0, 0);
    }
    offset
}

proof fn lemma_or_zero(a: usize, b: usize, c: usize)
    by (bit_vector)
    ensures
        a | 0 == a,
        0 | a == a,
        (a | b) | c == a | (b | c),
        (a | 0) | c == a | c,
{
}

/// Applies a `2^k` by `2^k` gate to `k` qubits in place; `qubits[0]` is the most significant
/// bit of its index space.
pub fn apply_n_qubit_seq(state: &mut [Complex64], u: &[Vec<Complex64>], qubits: &[usize], n: usize)
    requires
        n < usize::BITS,
        dimension(n) <= old(state)@.len(),
        qubits@.len() <= 5,
        qubits_fit(qubits@, n as int),
        is_gate_matrix(u@, qubits@.len()),
    ensures
        final(state)@ == n_qubit_applied(old(state)@, u@, qubits@, n),
{
    let ghost before = state@;
    let k: usize = qubits.len();
    let dim: usize = 1usize << k;
    let n_states: usize = 1usize << n;
    assert(qubits_fit(qubits@, usize::BITS as int));
    let mask: usize = qubit_mask(qubits);
    let mut offsets: Vec<usize> = Vec::new();
    let mut o: usize = 0;
    while o < dim
        invariant
            o <= dim,
            offsets@.len() == o,
            qubits_fit(qubits@, usize::BITS as int),
            forall|j: int| 0 <= j < o ==> #[trigger] offsets@[j] == gate_offset(j as nat, qubits@),
        decreases dim - o,
    {
        offsets.push(offset_of(o, qubits));
        o = o + 1;
    }
    let ghost after = n_qubit_applied(before, u@, qubits@, n);
    let mut base: usize = 0;
    while base < n_states
        invariant
            base <= n_states,
            n < usize::BITS,
            n_states == dimension(n),
            n_states <= before.len(),
            state@.len() == before.len(),
            qubits@.len() == k,
            k <= 5,
            dim == dimension(k),
            qubits_fit(qubits@, n as int),
            qubits_fit(qubits@, usize::BITS as int),
            is_gate_matrix(u@, k as nat),
            mask == mask_of(qubits@),
            offsets@.len() == dim,
            forall|j: int| 0 <= j < dim ==> #[trigger] offsets@[j] == gate_offset(j as nat, qubits@),
            after == n_qubit_applied(before, u@, qubits@, n),
            forall|x: int| n_states <= x < before.len() ==> state@[x] == before[x],
            forall|x: usize|
                #![trigger state@[x as int]]
                x < n_states ==> state@[x as int] == (if x & !mask < base {
                    after[x as int]
                } else {
                    before[x as int]
                }),
        decreases n_states - base,
    {
        let ghost entry = state@;
        proof {
            lemma_split(base, mask);
        }
        if base & mask == 0 {
            let w: Vec<Complex64> = gate_output(state, u, qubits, &offsets, base, n, Ghost(before));
            write_gate_output(state, &offsets, &w, base, n, qubits);
        }
        proof {
            assert forall|x: usize| #![trigger state@[x as int]] x < n_states implies state@[x as int] == (if x & !mask
                < base + 1 {
                after[x as int]
            } else {
                before[x as int]
            }) by {
                lemma_split(x, mask);
                assert(entry[x as int] == (if x & !mask < base {
                    after[x as int]
                } else {
                    before[x as int]
                }));
                if x & !mask == base {
                    lemma_gate_index_below(x, qubits@);
                }
            }
        }
        base = base + 1;
    }
    proof {
        assert forall|x: int| 0 <= x < before.len() implies #[trigger] state@[x] == after[x] by {
            if x < n_states {
                let y: usize = x as usize;
                lemma_split(y, mask);
                assert(state@[y as int] == state@[x]);
            }
        }
        assert(state@ =~= after);
    }
}

/// The amplitudes that a gate gives where the other qubits have the values in `base`.
fn gate_output(
    state: &[Complex64],
    u: &[Vec<Complex64>],
    qubits: &[usize],
    offsets: &Vec<usize>,
    base: usize,
    n: usize,
    Ghost(before): Ghost<Seq<Complex64>>,
) -> (w: Vec<Complex64>)
    requires
        n < usize::BITS,
        dimension(n) <= before.len(),
        state@.len() == before.len(),
        base < dimension(n),
        base & mask_of(qubits@) == 0,
        qubits@.len() <= 5,
        qubits_fit(qubits@, n as int),
        is_gate_matrix(u@, qubits@.len()),
        offsets@.len() == dimension(qubits@.len() as usize),
        forall|j: int|
            0 <= j < offsets@.len() ==> #[trigger] offsets@[j] == gate_offset(j as nat, qubits@),
        forall|x: usize|
            #![trigger state@[x as int]]
            x < dimension(n) && x & !mask_of(qubits@) == base ==> state@[x as int]
                == before[x as int],
    ensures
        w@.len() == offsets@.len(),
        forall|r: int|
            0 <= r < w@.len() ==> #[trigger] w@[r] == row_sum(
                u@[r]@,
                gate_input(before, base, qubits@),
                offsets@.len(),
            ),
{
    let dim: usize = offsets.len();
    let mut v: Vec<Complex64> = Vec::new();
    let mut j: usize = 0;
    while j < dim
        invariant
            j <= dim,
            dim == offsets@.len(),
            v@.len() == j,
            n < usize::BITS,
            dimension(n) <= before.len(),
            state@.len() == before.len(),
            base < dimension(n),
            base & mask_of(qubits@) == 0,
            qubits_fit(qubits@, n as int),
            forall|l: int|
                0 <= l < offsets@.len() ==> #[trigger] offsets@[l] == gate_offset(l as nat, qubits@),
            forall|x: usize|
                #![trigger state@[x as int]]
                x < dimension(n) && x & !mask_of(qubits@) == base ==> state@[x as int]
                    == before[x as int],
            forall|l: int|
                0 <= l < j ==> #[trigger] v@[l] == before[(base | gate_offset(
                    l as nat,
                    qubits@,
                )) as int],
        decreases dim - j,
    {
        let x: usize = base | offsets[j];
        proof {
            lemma_gate_offset_inside(j as nat, qubits@, n);
            lemma_join(base, gate_offset(j as nat, qubits@), mask_of(qubits@));
            lemma_combine_below(base, gate_offset(j as nat, qubits@), n);
        }
        v.push(state[x]);
        j = j + 1;
    }
    assert(v@ =~= gate_input(before, base, qubits@));
    let mut w: Vec<Complex64> = Vec::new();
    let mut row: usize = 0;
    while row < dim
        invariant
            row <= dim,
            w@.len() == row,
            dim == offsets@.len(),
            dim == dimension(qubits@.len() as usize),
            v@.len() == dim,
            v@ == gate_input(before, base, qubits@),
            is_gate_matrix(u@, qubits@.len()),
            forall|r: int|
                0 <= r < row ==> #[trigger] w@[r] == row_sum(u@[r]@, v@, dim as nat),
        decreases dim - row,
    {
        let mut acc: Complex64 = zero();
        let mut col: usize = 0;
        while col < dim
            invariant
                col <= dim,
                row < dim,
                v@.len() == dim,
                dim == dimension(qubits@.len() as usize),
                is_gate_matrix(u@, qubits@.len()),
                acc == row_sum(u@[row as int]@, v@, col as nat),
            decreases dim - col,
        {
            acc = add_complex(acc, mul_complex(u[row][col], v[col]));
            col = col + 1;
        }
        w.push(acc);
        row = row + 1;
    }
    w
}

/// Writes what a gate gave to the places it read from.
fn write_gate_output(
    state: &mut [Complex64],
    offsets: &Vec<usize>,
    w: &Vec<Complex64>,
    base: usize,
    n: usize,
    qubits: &[usize],
)
    requires
        n < usize::BITS,
        dimension(n) <= old(state)@.len(),
        base < dimension(n),
        base & mask_of(qubits@) == 0,
        qubits@.len() <= 5,
        qubits_fit(qubits@, n as int),
        offsets@.len() == dimension(qubits@.len() as usize),
        w@.len() == offsets@.len(),
        forall|j: int|
            0 <= j < offsets@.len() ==> #[trigger] offsets@[j] == gate_offset(j as nat, qubits@),
    ensures
        final(state)@.len() == old(state)@.len(),
        forall|x: int|
            #![trigger final(state)@[x]]
            0 <= x < old(state)@.len() ==> final(state)@[x] == (if x < dimension(n) && x as usize
                & !mask_of(qubits@) == base {
                w@[gate_index(x as usize, qubits@) as int]
            } else {
                old(state)@[x]
            }),
{
    let ghost before = state@;
    let ghost mask = mask_of(qubits@);
    let dim: usize = offsets.len();
    let mut j: usize = 0;
    while j < dim
        invariant
            j <= dim,
            dim == offsets@.len(),
            dim == dimension(qubits@.len() as usize),
            n < usize::BITS,
            dimension(n) <= before.len(),
            state@.len() == before.len(),
            base < dimension(n),
            mask == mask_of(qubits@),
            base & mask == 0,
            qubits@.len() <= 5,
            qubits_fit(qubits@, n as int),
            w@.len() == dim,
            forall|l: int|
                0 <= l < offsets@.len() ==> #[trigger] offsets@[l] == gate_offset(l as nat, qubits@),
            forall|x: int|
                #![trigger state@[x]]
                0 <= x < before.len() && !(x < dimension(n) && x as usize & !mask == base)
                    ==> state@[x] == before[x],
            forall|x: int|
                #![trigger state@[x]]
                0 <= x < dimension(n) && x as usize & !mask == base && gate_index(
                    x as usize,
                    qubits@,
                ) < j ==> state@[x] == w@[gate_index(x as usize, qubits@) as int],
        decreases dim - j,
    {
        let ghost entry = state@;
        let y: usize = base | offsets[j];
        proof {
            lemma_gate_offset_inside(j as nat, qubits@, n);
            lemma_join(base, gate_offset(j as nat, qubits@), mask);
            lemma_combine_below(base, gate_offset(j as nat, qubits@), n);
        }
        state[y] = w[j];
        proof {
            assert(qubits_fit(qubits@, usize::BITS as int));
            assert forall|x: int| #![trigger state@[x]]
                0 <= x < dimension(n) && x as usize & !mask == base && gate_index(
                x as usize,
                qubits@,
            ) < j + 1 implies state@[x] == w@[gate_index(x as usize, qubits@) as int] by {
                let xu = x as usize;
                lemma_split(xu, mask);
                lemma_offset_of_index(xu, qubits@);
                if x == y {
                    assert(gate_offset(j as nat, qubits@) == xu & mask);
                    assert forall|q: usize| q < usize::BITS && bit_set(
                        gate_offset(j as nat, qubits@),
                        q,
                    ) implies bit_set(xu, q) by {
                        lemma_bit_ops(xu, mask, q);
                    }
                    lemma_index_is_largest(j as nat, xu, qubits@);
                } else {
                    assert(entry[x] == state@[x]);
                    if gate_index(xu, qubits@) == j {
                        assert(xu == base | gate_offset(j as nat, qubits@));
                    }
                }
            }
        }
        j = j + 1;
    }
    proof {
        assert forall|x: int| #![trigger state@[x]] 0 <= x < before.len() implies state@[x] == (if x < dimension(n)
            && x as usize & !mask == base {
            w@[gate_index(x as usize, qubits@) as int]
        } else {
            before[x]
        }) by {
            lemma_gate_index_below(x as usize, qubits@);
        }
    }
}

/// Applies a gate to several qubits; see [`apply_n_qubit_seq`].
pub fn apply_n_qubit(state: &mut [Complex64], u: &[Vec<Complex64>], qubits: &[usize], n: usize)
    requires
        n < usize::BITS,
        dimension(n) <= old(state)@.len(),
        qubits@.len() <= 5,
        qubits_fit(qubits@, n as int),
        is_gate_matrix(u@, qubits@.len()),
    ensures
        final(state)@ == n_qubit_applied(old(state)@, u@, qubits@, n),
{
    apply_n_qubit_seq(state, u, qubits, n)
}

} // verus!
