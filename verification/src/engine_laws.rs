//! What holds of the permuting kernels.

use num_complex::Complex64;
use vstd::prelude::*;

use crate::bits::{
    bit_mask, bit_set, dimension, lemma_bit_ops, lemma_combine_below, lemma_mask_below,
    lemma_mask_bit, lemma_xor_twice,
};
use crate::engine::{all_set, cswap_applied, cx_applied, cz_applied, mcx_applied, swap_applied};

verus! {

proof fn lemma_flip_keeps(k: usize, q: usize, c: usize)
    requires
        q < usize::BITS,
        c < usize::BITS,
        c != q,
    ensures
        bit_set(k ^ bit_mask(q), c) == bit_set(k, c),
{
    lemma_bit_ops(k, bit_mask(q), c);
    lemma_mask_bit(q, c);
}

/// Two controlled NOTs on the same qubits undo each other.
pub proof fn law_cx_undoes_itself(s: Seq<Complex64>, n: usize, control: usize, target: usize)
    requires
        n < usize::BITS,
        dimension(n) <= s.len(),
        control < usize::BITS,
        target < n,
    ensures
        cx_applied(cx_applied(s, n, control, target), n, control, target) == s,
{
    let once = cx_applied(s, n, control, target);
    assert forall|k: int| 0 <= k < s.len() implies cx_applied(once, n, control, target)[k]
        == s[k] by {
        if k < dimension(n) && control != target {
            let i = k as usize;
            lemma_mask_below(target, n);
            lemma_combine_below(i, bit_mask(target), n);
            lemma_xor_twice(i, bit_mask(target));
            lemma_flip_keeps(i, target, control);
        }
    }
    assert(cx_applied(once, n, control, target) =~= s);
}

/// Two multi-controlled NOTs on the same qubits undo each other.
pub proof fn law_multi_controlled_x_undoes_itself(
    s: Seq<Complex64>,
    n: usize,
    controls: Seq<usize>,
    target: usize,
)
    requires
        n < usize::BITS,
        dimension(n) <= s.len(),
        forall|j: int| 0 <= j < controls.len() ==> #[trigger] controls[j] < usize::BITS,
        target < n,
    ensures
        mcx_applied(mcx_applied(s, n, controls, target), n, controls, target) == s,
{
    let once = mcx_applied(s, n, controls, target);
    assert forall|k: int| 0 <= k < s.len() implies mcx_applied(once, n, controls, target)[k]
        == s[k] by {
        if k < dimension(n) && !controls.contains(target) {
            let i = k as usize;
            lemma_mask_below(target, n);
            lemma_combine_below(i, bit_mask(target), n);
            lemma_xor_twice(i, bit_mask(target));
            assert forall|j: int| 0 <= j < controls.len() implies bit_set(
                i ^ bit_mask(target),
                #[trigger] controls[j],
            ) == bit_set(i, controls[j]) by {
                assert(controls[j] != target);
                lemma_flip_keeps(i, target, controls[j]);
            }
            assert(all_set(i ^ bit_mask(target), controls) == all_set(i, controls)) by {
                if all_set(i, controls) {
                    assert forall|j: int| 0 <= j < controls.len() implies bit_set(
                        i ^ bit_mask(target),
                        #[trigger] controls[j],
                    ) by {
                        assert(bit_set(i, controls[j]));
                    }
                }
                if all_set(i ^ bit_mask(target), controls) {
                    assert forall|j: int| 0 <= j < controls.len() implies bit_set(
                        i,
                        #[trigger] controls[j],
                    ) by {
                        assert(bit_set(i ^ bit_mask(target), controls[j]));
                    }
                }
            }
        }
    }
    assert(mcx_applied(once, n, controls, target) =~= s);
}

/// A multi-controlled NOT with one control is a controlled NOT.
pub proof fn law_one_control_is_cx(s: Seq<Complex64>, n: usize, control: usize, target: usize)
    ensures
        mcx_applied(s, n, seq![control], target) == cx_applied(s, n, control, target),
{
    let controls = seq![control];
    assert(controls[0] == control);
    assert(mcx_applied(s, n, controls, target) =~= cx_applied(s, n, control, target));
}

proof fn lemma_flip_both(k: usize, a: usize, b: usize)
    requires
        a < usize::BITS,
        b < usize::BITS,
        a != b,
    ensures
        bit_set(k ^ (bit_mask(a) | bit_mask(b)), a) == !bit_set(k, a),
        bit_set(k ^ (bit_mask(a) | bit_mask(b)), b) == !bit_set(k, b),
{
    let both = bit_mask(a) | bit_mask(b);
    lemma_bit_ops(k, both, a);
    lemma_bit_ops(k, both, b);
    lemma_bit_ops(bit_mask(a), bit_mask(b), a);
    lemma_bit_ops(bit_mask(a), bit_mask(b), b);
    lemma_mask_bit(a, a);
    lemma_mask_bit(a, b);
    lemma_mask_bit(b, a);
    lemma_mask_bit(b, b);
}

/// Two SWAPs of the same qubits undo each other.
pub proof fn law_swap_undoes_itself(s: Seq<Complex64>, n: usize, a: usize, b: usize)
    requires
        n < usize::BITS,
        dimension(n) <= s.len(),
        a < n,
        b < n,
    ensures
        swap_applied(swap_applied(s, n, a, b), n, a, b) == s,
{
    let once = swap_applied(s, n, a, b);
    assert forall|k: int| 0 <= k < s.len() implies swap_applied(once, n, a, b)[k] == s[k] by {
        if k < dimension(n) && a != b {
            let i = k as usize;
            let both = bit_mask(a) | bit_mask(b);
            lemma_mask_below(a, n);
            lemma_mask_below(b, n);
            lemma_combine_below(bit_mask(a), bit_mask(b), n);
            lemma_combine_below(i, both, n);
            lemma_xor_twice(i, both);
            lemma_flip_both(i, a, b);
        }
    }
    assert(swap_applied(once, n, a, b) =~= s);
}

/// Two controlled SWAPs of the same qubits undo each other.
pub proof fn law_controlled_swap_undoes_itself(
    s: Seq<Complex64>,
    n: usize,
    control: usize,
    a: usize,
    b: usize,
)
    requires
        n < usize::BITS,
        dimension(n) <= s.len(),
        control < usize::BITS,
        a < n,
        b < n,
    ensures
        cswap_applied(cswap_applied(s, n, control, a, b), n, control, a, b) == s,
{
    let once = cswap_applied(s, n, control, a, b);
    assert forall|k: int| 0 <= k < s.len() implies cswap_applied(once, n, control, a, b)[k]
        == s[k] by {
        if k < dimension(n) && a != b && control != a && control != b {
            let i = k as usize;
            let both = bit_mask(a) | bit_mask(b);
            lemma_mask_below(a, n);
            lemma_mask_below(b, n);
            lemma_combine_below(bit_mask(a), bit_mask(b), n);
            lemma_combine_below(i, both, n);
            lemma_xor_twice(i, both);
            lemma_flip_both(i, a, b);
            lemma_bit_ops(i, both, control);
            lemma_bit_ops(bit_mask(a), bit_mask(b), control);
            lemma_mask_bit(a, control);
            lemma_mask_bit(b, control);
        }
    }
    assert(cswap_applied(once, n, control, a, b) =~= s);
}

proof fn lemma_three_flips(k: usize, p: usize, q: usize)
    by (bit_vector)
    requires
        p & q == 0,
    ensures
        ((k ^ q) ^ p) == k ^ (p | q),
        ((k ^ p) ^ q) == k ^ (p | q),
        ((k ^ q) ^ q) == k,
{
}

/// Three controlled NOTs with alternating directions make a SWAP.
pub proof fn law_three_cx_make_a_swap(s: Seq<Complex64>, n: usize, a: usize, b: usize)
    requires
        n < usize::BITS,
        dimension(n) <= s.len(),
        a < n,
        b < n,
        a != b,
    ensures
        cx_applied(cx_applied(cx_applied(s, n, a, b), n, b, a), n, a, b) == swap_applied(
            s,
            n,
            a,
            b,
        ),
{
    let one = cx_applied(s, n, a, b);
    let two = cx_applied(one, n, b, a);
    let three = cx_applied(two, n, a, b);
    let p = bit_mask(a);
    let q = bit_mask(b);
    lemma_mask_below(a, n);
    lemma_mask_below(b, n);
    lemma_mask_bit(a, b);
    assert forall|k: int| 0 <= k < s.len() implies three[k] == swap_applied(s, n, a, b)[k] by {
        if k < dimension(n) {
            let i = k as usize;
            lemma_three_flips(i, p, q);
            lemma_combine_below(i, p, n);
            lemma_combine_below(i, q, n);
            lemma_combine_below(i ^ q, p, n);
            lemma_combine_below(i ^ p, q, n);
            lemma_bit_ops(i, q, a);
            lemma_bit_ops(i, q, b);
            lemma_bit_ops(i, p, a);
            lemma_bit_ops(i, p, b);
            lemma_bit_ops(i ^ q, p, a);
            lemma_bit_ops(i ^ q, p, b);
            lemma_mask_bit(a, a);
            lemma_mask_bit(b, a);
            lemma_mask_bit(b, b);
        }
    }
    assert(three =~= swap_applied(s, n, a, b));
}

/// It does not matter which qubit of a controlled Z is the control.
pub proof fn law_cz_is_symmetric(s: Seq<Complex64>, n: usize, a: usize, b: usize)
    ensures
        cz_applied(s, n, a, b) == cz_applied(s, n, b, a),
{
    assert(cz_applied(s, n, a, b) =~= cz_applied(s, n, b, a));
}

/// It does not matter in which order the qubits of a SWAP are named.
pub proof fn law_swap_is_symmetric(s: Seq<Complex64>, n: usize, a: usize, b: usize)
    requires
        a < usize::BITS,
        b < usize::BITS,
    ensures
        swap_applied(s, n, a, b) == swap_applied(s, n, b, a),
{
    lemma_or_commutes(bit_mask(a), bit_mask(b));
    assert(swap_applied(s, n, a, b) =~= swap_applied(s, n, b, a));
}

proof fn lemma_or_commutes(a: usize, b: usize)
    by (bit_vector)
    ensures
        a | b == b | a,
{
}

} // verus!
