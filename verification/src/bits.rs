//! Bit arithmetic on basis-state indices.
//!
//! Bit `q` of an index holds the value of qubit `q` in that basis state.

use vstd::prelude::*;

verus! {

/// The index whose only set bit is bit `q`.
pub open spec fn bit_mask(q: usize) -> usize {
    1usize << q
}

/// Whether bit `q` of `i` is set.
pub open spec fn bit_set(i: usize, q: usize) -> bool {
    i & (1usize << q) != 0
}

/// The number of basis states of `n` qubits.
pub open spec fn dimension(n: usize) -> usize {
    1usize << n
}

pub proof fn lemma_mask_below(q: usize, n: usize)
    by (bit_vector)
    requires
        q < n < usize::BITS,
    ensures
        0 < 1usize << q,
        1usize << q < 1usize << n,
{
}

pub proof fn lemma_dimension_positive(n: usize)
    by (bit_vector)
    requires
        n < usize::BITS,
    ensures
        0 < 1usize << n,
{
}

/// One more qubit doubles the number of basis states.
pub proof fn lemma_dimension_step(n: usize)
    by (bit_vector)
    requires
        n + 1 < usize::BITS,
    ensures
        1usize << ((n + 1) as usize) == 2 * (1usize << n),
        1usize << 0usize == 1,
{
}

/// Combining indices of `n` bits gives an index of `n` bits.
pub proof fn lemma_combine_below(a: usize, b: usize, n: usize)
    by (bit_vector)
    requires
        n < usize::BITS,
        a < 1usize << n,
        b < 1usize << n,
    ensures
        a | b < 1usize << n,
        a ^ b < 1usize << n,
        a & b < 1usize << n,
{
}

pub proof fn lemma_xor_twice(a: usize, b: usize)
    by (bit_vector)
    ensures
        (a ^ b) ^ b == a,
        a ^ 0 == a,
        a & 0 == 0,
{
}

/// The index with bit `q` cleared.
pub open spec fn clear_bit(i: usize, q: usize) -> usize {
    i & !(1usize << q)
}

/// The index with bit `q` set.
pub open spec fn with_bit(i: usize, q: usize) -> usize {
    i | (1usize << q)
}

/// The two indices of a pair that differ in bit `q`.
pub proof fn lemma_bit_pair(k: usize, q: usize)
    by (bit_vector)
    requires
        q < usize::BITS,
    ensures
        (k & !(1usize << q)) & (1usize << q) == 0,
        (k | (1usize << q)) & (1usize << q) != 0,
        k & !(1usize << q) <= k,
        k & (1usize << q) == 0 ==> k & !(1usize << q) == k && k < k | (1usize << q),
        k & (1usize << q) != 0 ==> k | (1usize << q) == k,
        (k | (1usize << q)) & !(1usize << q) == k & !(1usize << q),
        (k & !(1usize << q)) | (1usize << q) == k | (1usize << q),
        k == k & !(1usize << q) || k == (k & !(1usize << q)) | (1usize << q),
{
}

/// The bits of a combined index.
pub proof fn lemma_bit_ops(a: usize, b: usize, q: usize)
    by (bit_vector)
    requires
        q < usize::BITS,
    ensures
        ((a & b) & (1usize << q) != 0) == (a & (1usize << q) != 0 && b & (1usize << q) != 0),
        ((a | b) & (1usize << q) != 0) == (a & (1usize << q) != 0 || b & (1usize << q) != 0),
        ((a ^ b) & (1usize << q) != 0) == ((a & (1usize << q) != 0) != (b & (1usize << q) != 0)),
        0usize & (1usize << q) == 0,
{
}

/// An index splits into the bits of a mask and the others.
pub proof fn lemma_split(i: usize, mask: usize)
    by (bit_vector)
    ensures
        (i & !mask) | (i & mask) == i,
        (i & !mask) & mask == 0,
        i & !mask <= i,
        i & mask == 0 ==> i & !mask == i,
{
}

/// Bits put beside others can be told apart again.
pub proof fn lemma_join(base: usize, part: usize, mask: usize)
    by (bit_vector)
    requires
        base & mask == 0,
        part & !mask == 0,
    ensures
        (base | part) & !mask == base,
        (base | part) & mask == part,
{
}

/// The only bit of `1 << p` is bit `p`.
pub proof fn lemma_mask_bit(p: usize, q: usize)
    by (bit_vector)
    requires
        p < usize::BITS,
        q < usize::BITS,
    ensures
        ((1usize << p) & (1usize << q) != 0) == (p == q),
{
}

/// The bits of `a` below bit `m`.
pub open spec fn low_bits(a: usize, m: usize) -> usize {
    a & ((1usize << m) - 1) as usize
}

proof fn lemma_low_bits(a: usize, m: usize)
    by (bit_vector)
    requires
        m < usize::BITS,
    ensures
        a & (((1usize << m) - 1) as usize) < 1usize << m,
        (m + 1 == usize::BITS || a < 1usize << ((m + 1) as usize)) ==> a == (a & (((1usize << m)
            - 1) as usize)) | (a & (1usize << m)),
{
}

proof fn lemma_low_bits_bit(a: usize, m: usize, q: usize)
    by (bit_vector)
    requires
        q < m < usize::BITS,
    ensures
        (a & (((1usize << m) - 1) as usize)) & (1usize << q) == a & (1usize << q),
{
}

proof fn lemma_one_bit(a: usize, b: usize, m: usize)
    by (bit_vector)
    requires
        m < usize::BITS,
        (a & (1usize << m) != 0) == (b & (1usize << m) != 0),
    ensures
        a & (1usize << m) == b & (1usize << m),
{
}

proof fn lemma_same_low_bits(a: usize, b: usize, m: usize)
    requires
        m < usize::BITS,
        forall|q: usize| q < m ==> bit_set(a, q) == bit_set(b, q),
    ensures
        low_bits(a, m) == low_bits(b, m),
    decreases m,
{
    let x = low_bits(a, m);
    let y = low_bits(b, m);
    lemma_low_bits(a, m);
    lemma_low_bits(b, m);
    if m == 0 {
        assert(1usize << 0usize == 1) by (bit_vector);
    } else {
        let p = (m - 1) as usize;
        lemma_same_low_bits(a, b, p);
        lemma_low_bits_bit(a, m, p);
        lemma_low_bits_bit(b, m, p);
        assert(bit_set(a, p) == bit_set(b, p));
        lemma_one_bit(a, b, p);
        lemma_low_bits(x, p);
        lemma_low_bits(y, p);
        lemma_low_bits_nested(a, m, p);
        lemma_low_bits_nested(b, m, p);
    }
}

proof fn lemma_low_bits_nested(a: usize, m: usize, p: usize)
    by (bit_vector)
    requires
        p <= m < usize::BITS,
    ensures
        (a & (((1usize << m) - 1) as usize)) & (((1usize << p) - 1) as usize) == a & (((1usize << p)
            - 1) as usize),
{
}

/// Two indices with the same bits are the same.
pub proof fn lemma_bits_determine(a: usize, b: usize)
    requires
        forall|q: usize| q < usize::BITS ==> bit_set(a, q) == bit_set(b, q),
    ensures
        a == b,
{
    let m = (usize::BITS - 1) as usize;
    lemma_same_low_bits(a, b, m);
    lemma_low_bits(a, m);
    lemma_low_bits(b, m);
    assert(bit_set(a, m) == bit_set(b, m));
    lemma_one_bit(a, b, m);
}

/// The product of two numbers, or the largest number where it does not fit.
pub fn saturating_product(a: usize, b: usize) -> (r: usize)
    ensures
        r == if a * b <= usize::MAX {
            a * b
        } else {
            usize::MAX as int
        },
{
    match a.checked_mul(b) {
        Some(product) => product,
        None => usize::MAX,
    }
}

} // verus!
