//! State-vector kernels.
//!
//! A state vector of `n` qubits holds `2^n` amplitudes; bit `q` of an index is the value of
//! qubit `q` in that basis state. Amplitudes past `2^n` are never touched.

use num_complex::Complex64;
use vstd::prelude::*;

use crate::bits::{
    bit_mask, bit_set, clear_bit, dimension, lemma_bit_ops, lemma_bit_pair, lemma_bits_determine,
    lemma_combine_below, lemma_mask_below, lemma_mask_bit, lemma_xor_twice, with_bit,
};
use crate::complex::{
    add_complex, complex_add, complex_mul, complex_neg, mul_complex, neg_complex,
};

verus! {

/// Whether index `i` carries the pattern `value` on the bits of `mask`.
pub open spec fn carries(i: usize, mask: usize, value: usize) -> bool {
    i & mask == value
}

/// The state after the amplitudes at `i` and `i ^ flip` have changed places for every `i`
/// that carries the pattern.
pub open spec fn exchanged(
    s: Seq<Complex64>,
    n: usize,
    mask: usize,
    value: usize,
    flip: usize,
) -> Seq<Complex64> {
    Seq::new(
        s.len(),
        |k: int|
            if k < dimension(n) && (carries(k as usize, mask, value) || carries(
                k as usize ^ flip,
                mask,
                value,
            )) {
                s[(k as usize ^ flip) as int]
            } else {
                s[k]
            },
    )
}

proof fn lemma_partner_differs(i: usize, mask: usize, value: usize, flip: usize)
    by (bit_vector)
    requires
        i & mask == value,
        flip & mask != 0,
    ensures
        (i ^ flip) & mask != value,
        i ^ flip != i,
        (i ^ flip) ^ flip == i,
{
}

/// Exchanges the amplitudes at `i` and `i ^ flip` for every `i` that carries the pattern.
fn exchange_pairs(state: &mut [Complex64], n: usize, mask: usize, value: usize, flip: usize)
    requires
        n < usize::BITS,
        dimension(n) <= old(state)@.len(),
        flip < dimension(n),
        flip & mask != 0,
    ensures
        final(state)@ == exchanged(old(state)@, n, mask, value, flip),
{
    let n_states: usize = 1usize << n;
    let ghost before = state@;
    let mut i: usize = 0;
    while i < n_states
        invariant
            i <= n_states,
            n < usize::BITS,
            n_states == dimension(n),
            n_states <= before.len(),
            state@.len() == before.len(),
            flip < n_states,
            flip & mask != 0,
            forall|k: int| n_states <= k < before.len() ==> state@[k] == before[k],
            forall|k: usize|
                #![trigger state@[k as int]]
                k < n_states ==> state@[k as int] == (if (carries(k, mask, value) && k < i) || (
                carries(k ^ flip, mask, value) && k ^ flip < i) {
                    before[(k ^ flip) as int]
                } else {
                    before[k as int]
                }),
        decreases n_states - i,
    {
        if i & mask == value {
            let j: usize = i ^ flip;
            proof {
                lemma_partner_differs(i, mask, value, flip);
                lemma_combine_below(i, flip, n);
            }
            let a: Complex64 = state[i];
            let b: Complex64 = state[j];
            state[i] = b;
            state[j] = a;
            proof {
                assert forall|k: usize| #![trigger state@[k as int]] k < n_states implies state@[k as int] == (if (carries(
                    k,
                    mask,
                    value,
                ) && k < i + 1) || (carries(k ^ flip, mask, value) && k ^ flip < i + 1) {
                    before[(k ^ flip) as int]
                } else {
                    before[k as int]
                }) by {
                    lemma_xor_twice(k, flip);
                    lemma_combine_below(k, flip, n);
                }
            }
        }
        i = i + 1;
    }
    proof {
        assert forall|k: int| 0 <= k < before.len() implies #[trigger] state@[k] == exchanged(
            before,
            n,
            mask,
            value,
            flip,
        )[k] by {
            if k < n_states {
                let u: usize = k as usize;
                lemma_combine_below(u, flip, n);
                assert(state@[u as int] == state@[k]);
            }
        }
    }
}

/// The state after a controlled NOT: the amplitudes of the states whose control is set have
/// their target bit flipped. A control that is also the target leaves the state as it is.
pub open spec fn cx_applied(s: Seq<Complex64>, n: usize, control: usize, target: usize) -> Seq<
    Complex64,
> {
    Seq::new(
        s.len(),
        |k: int|
            if k < dimension(n) && control != target && bit_set(k as usize, control) {
                s[(k as usize ^ bit_mask(target)) as int]
            } else {
                s[k]
            },
    )
}

proof fn lemma_cx_pattern(k: usize, control: usize, target: usize)
    by (bit_vector)
    requires
        control < usize::BITS,
        target < usize::BITS,
        control != target,
    ensures
        ({
            let c = 1usize << control;
            let t = 1usize << target;
            &&& (k & (c | t) == c || (k ^ t) & (c | t) == c) <==> k & c != 0
            &&& t & (c | t) != 0
        }),
{
}

/// Specialised CNOT kernel: exchanges the amplitudes of target-bit pairs only where the
/// control is 1.
pub fn apply_cx_kernel_seq(state: &mut [Complex64], control: usize, target: usize, n: usize)
    requires
        n < usize::BITS,
        dimension(n) <= old(state)@.len(),
        control < usize::BITS,
        target < n,
    ensures
        final(state)@ == cx_applied(old(state)@, n, control, target),
{
    let ghost before = state@;
    if control == target {
        assert(state@ =~= cx_applied(before, n, control, target));
        return;
    }
    let control_bit: usize = 1usize << control;
    let target_bit: usize = 1usize << target;
    proof {
        lemma_cx_pattern(0, control, target);
        lemma_mask_below(target, n);
    }
    exchange_pairs(state, n, control_bit | target_bit, control_bit, target_bit);
    proof {
        assert forall|k: int| 0 <= k < before.len() implies #[trigger] state@[k] == cx_applied(
            before,
            n,
            control,
            target,
        )[k] by {
            if k < dimension(n) {
                lemma_cx_pattern(k as usize, control, target);
            }
        }
        assert(state@ =~= cx_applied(before, n, control, target));
    }
}

/// Specialised CNOT kernel; see [`apply_cx_kernel_seq`].
pub fn apply_cx_kernel(state: &mut [Complex64], control: usize, target: usize, n: usize)
    requires
        n < usize::BITS,
        dimension(n) <= old(state)@.len(),
        control < usize::BITS,
        target < n,
    ensures
        final(state)@ == cx_applied(old(state)@, n, control, target),
{
    apply_cx_kernel_seq(state, control, target, n)
}

/// The union of the bits of some qubits.
pub open spec fn mask_of(qubits: Seq<usize>) -> usize
    decreases qubits.len(),
{
    if qubits.len() == 0 {
        0
    } else {
        mask_of(qubits.drop_last()) | bit_mask(qubits.last())
    }
}

/// Whether every one of some qubits is set in the basis state `i`.
pub open spec fn all_set(i: usize, qubits: Seq<usize>) -> bool {
    forall|j: int| 0 <= j < qubits.len() ==> bit_set(i, #[trigger] qubits[j])
}

proof fn lemma_covers_step(i: usize, mask: usize, q: usize)
    by (bit_vector)
    requires
        q < usize::BITS,
    ensures
        i & (mask | (1usize << q)) == mask | (1usize << q) <==> (i & mask == mask && i & (1usize
            << q) != 0),
{
}

proof fn lemma_mask_covers(i: usize, qubits: Seq<usize>)
    requires
        forall|j: int| 0 <= j < qubits.len() ==> #[trigger] qubits[j] < usize::BITS,
    ensures
        i & mask_of(qubits) == mask_of(qubits) <==> all_set(i, qubits),
    decreases qubits.len(),
{
    if qubits.len() == 0 {
        lemma_xor_twice(i, i);
    } else {
        let rest = qubits.drop_last();
        lemma_mask_covers(i, rest);
        lemma_covers_step(i, mask_of(rest), qubits.last());
        assert(all_set(i, qubits) <==> all_set(i, rest) && bit_set(i, qubits.last())) by {
            assert(forall|j: int| 0 <= j < rest.len() ==> rest[j] == qubits[j]);
            if all_set(i, qubits) {
                assert(bit_set(i, qubits[qubits.len() - 1]));
                assert forall|j: int| 0 <= j < rest.len() implies bit_set(i, #[trigger] rest[j]) by {
                    assert(bit_set(i, qubits[j]));
                }
            }
            if all_set(i, rest) && bit_set(i, qubits.last()) {
                assert forall|j: int| 0 <= j < qubits.len() implies bit_set(
                    i,
                    #[trigger] qubits[j],
                ) by {
                    if j < rest.len() {
                        assert(bit_set(i, rest[j]));
                    }
                }
            }
        }
    }
}

/// The union of the bits of some qubits.
pub(crate) fn qubit_mask(qubits: &[usize]) -> (mask: usize)
    requires
        forall|j: int| 0 <= j < qubits@.len() ==> #[trigger] qubits@[j] < usize::BITS,
    ensures
        mask == mask_of(qubits@),
{
    let mut mask: usize = 0;
    let mut j: usize = 0;
    while j < qubits.len()
        invariant
            j <= qubits@.len(),
            forall|l: int| 0 <= l < qubits@.len() ==> #[trigger] qubits@[l] < usize::BITS,
            mask == mask_of(qubits@.take(j as int)),
        decreases qubits@.len() - j,
    {
        let q: usize = qubits[j];
        assert(qubits@.take(j + 1).drop_last() =~= qubits@.take(j as int));
        mask = mask | (1usize << q);
        j = j + 1;
    }
    assert(qubits@.take(j as int) =~= qubits@);
    mask
}

/// Whether `q` is among `qubits`.
fn contains_qubit(qubits: &[usize], q: usize) -> (found: bool)
    ensures
        found == qubits@.contains(q),
{
    let mut j: usize = 0;
    while j < qubits.len()
        invariant
            j <= qubits@.len(),
            forall|l: int| 0 <= l < j ==> qubits@[l] != q,
        decreases qubits@.len() - j,
    {
        if qubits[j] == q {
            assert(qubits@[j as int] == q);
            return true;
        }
        j = j + 1;
    }
    false
}

/// The state after a multi-controlled NOT: the amplitudes of the states in which every
/// control is set have their target bit flipped. A target among the controls leaves the
/// state as it is.
pub open spec fn mcx_applied(
    s: Seq<Complex64>,
    n: usize,
    controls: Seq<usize>,
    target: usize,
) -> Seq<Complex64> {
    Seq::new(
        s.len(),
        |k: int|
            if k < dimension(n) && !controls.contains(target) && all_set(k as usize, controls) {
                s[(k as usize ^ bit_mask(target)) as int]
            } else {
                s[k]
            },
    )
}

proof fn lemma_mcx_pattern(k: usize, mask: usize, target: usize)
    by (bit_vector)
    requires
        target < usize::BITS,
        mask & (1usize << target) == 0,
    ensures
        ({
            let t = 1usize << target;
            &&& (k & (mask | t) == mask || (k ^ t) & (mask | t) == mask) <==> k & mask == mask
            &&& t & (mask | t) != 0
        }),
{
}

/// The bits of the union are the qubits themselves.
pub proof fn lemma_mask_of_bit(qubits: Seq<usize>, q: usize)
    requires
        forall|j: int| 0 <= j < qubits.len() ==> #[trigger] qubits[j] < usize::BITS,
        q < usize::BITS,
    ensures
        bit_set(mask_of(qubits), q) <==> qubits.contains(q),
    decreases qubits.len(),
{
    if qubits.len() == 0 {
        lemma_bit_ops(0, 0, q);
    } else {
        let rest = qubits.drop_last();
        lemma_mask_of_bit(rest, q);
        lemma_bit_ops(mask_of(rest), bit_mask(qubits.last()), q);
        lemma_mask_bit(qubits.last(), q);
        if qubits.contains(q) {
            let j = choose|j: int| 0 <= j < qubits.len() && qubits[j] == q;
            if j < rest.len() {
                assert(rest[j] == q);
            }
        }
        if rest.contains(q) {
            let j = choose|j: int| 0 <= j < rest.len() && rest[j] == q;
            assert(qubits[j] == q);
        }
        if qubits.last() == q {
            assert(qubits[qubits.len() - 1] == q);
        }
    }
}

/// Specialised multi-controlled X kernel: exchanges the amplitudes of target-bit pairs only
/// where every control bit is set.
pub fn apply_multi_controlled_x_kernel_seq(
    state: &mut [Complex64],
    controls: &[usize],
    target: usize,
    n: usize,
)
    requires
        n < usize::BITS,
        dimension(n) <= old(state)@.len(),
        forall|j: int| 0 <= j < controls@.len() ==> #[trigger] controls@[j] < usize::BITS,
        target < n,
    ensures
        final(state)@ == mcx_applied(old(state)@, n, controls@, target),
{
    let ghost before = state@;
    if contains_qubit(controls, target) {
        assert(state@ =~= mcx_applied(before, n, controls@, target));
        return;
    }
    let control_mask: usize = qubit_mask(controls);
    let target_bit: usize = 1usize << target;
    proof {
        lemma_mask_of_bit(controls@, target);
        lemma_mcx_pattern(0, control_mask, target);
        lemma_mask_below(target, n);
    }
    exchange_pairs(state, n, control_mask | target_bit, control_mask, target_bit);
    proof {
        assert forall|k: int| 0 <= k < before.len() implies #[trigger] state@[k] == mcx_applied(
            before,
            n,
            controls@,
            target,
        )[k] by {
            if k < dimension(n) {
                lemma_mcx_pattern(k as usize, control_mask, target);
                lemma_mask_covers(k as usize, controls@);
            }
        }
        assert(state@ =~= mcx_applied(before, n, controls@, target));
    }
}

/// Specialised multi-controlled X kernel; see [`apply_multi_controlled_x_kernel_seq`].
pub fn apply_multi_controlled_x_kernel(
    state: &mut [Complex64],
    controls: &[usize],
    target: usize,
    n: usize,
)
    requires
        n < usize::BITS,
        dimension(n) <= old(state)@.len(),
        forall|j: int| 0 <= j < controls@.len() ==> #[trigger] controls@[j] < usize::BITS,
        target < n,
    ensures
        final(state)@ == mcx_applied(old(state)@, n, controls@, target),
{
    apply_multi_controlled_x_kernel_seq(state, controls, target, n)
}

/// The state after a SWAP: the amplitudes of the states whose two bits differ have both bits
/// flipped.
pub open spec fn swap_applied(s: Seq<Complex64>, n: usize, a: usize, b: usize) -> Seq<Complex64> {
    Seq::new(
        s.len(),
        |k: int|
            if k < dimension(n) && bit_set(k as usize, a) != bit_set(k as usize, b) {
                s[(k as usize ^ (bit_mask(a) | bit_mask(b))) as int]
            } else {
                s[k]
            },
    )
}

proof fn lemma_swap_pattern(k: usize, a: usize, b: usize)
    by (bit_vector)
    requires
        a < usize::BITS,
        b < usize::BITS,
        a != b,
    ensures
        ({
            let p = 1usize << a;
            let q = 1usize << b;
            let f = p | q;
            &&& (k & f == q || (k ^ f) & f == q) <==> ((k & p != 0) != (k & q != 0))
            &&& f & f != 0
        }),
{
}

/// Specialised SWAP kernel: exchanges the amplitudes whose two bits differ.
pub fn apply_swap_kernel_seq(state: &mut [Complex64], a: usize, b: usize, n: usize)
    requires
        n < usize::BITS,
        dimension(n) <= old(state)@.len(),
        a < n,
        b < n,
    ensures
        final(state)@ == swap_applied(old(state)@, n, a, b),
{
    let ghost before = state@;
    if a == b {
        assert(state@ =~= swap_applied(before, n, a, b));
        return;
    }
    let a_bit: usize = 1usize << a;
    let b_bit: usize = 1usize << b;
    let both: usize = a_bit | b_bit;
    proof {
        lemma_swap_pattern(0, a, b);
        lemma_mask_below(a, n);
        lemma_mask_below(b, n);
        lemma_combine_below(a_bit, b_bit, n);
    }
    exchange_pairs(state, n, both, b_bit, both);
    proof {
        assert forall|k: int| 0 <= k < before.len() implies #[trigger] state@[k] == swap_applied(
            before,
            n,
            a,
            b,
        )[k] by {
            if k < dimension(n) {
                lemma_swap_pattern(k as usize, a, b);
            }
        }
        assert(state@ =~= swap_applied(before, n, a, b));
    }
}

/// Specialised SWAP kernel; see [`apply_swap_kernel_seq`].
pub fn apply_swap_kernel(state: &mut [Complex64], a: usize, b: usize, n: usize)
    requires
        n < usize::BITS,
        dimension(n) <= old(state)@.len(),
        a < n,
        b < n,
    ensures
        final(state)@ == swap_applied(old(state)@, n, a, b),
{
    apply_swap_kernel_seq(state, a, b, n)
}

/// The state after a controlled SWAP: a SWAP of the amplitudes of the states whose control
/// is set. Where two of the three qubits coincide the state stays as it is.
pub open spec fn cswap_applied(
    s: Seq<Complex64>,
    n: usize,
    control: usize,
    a: usize,
    b: usize,
) -> Seq<Complex64> {
    Seq::new(
        s.len(),
        |k: int|
            if k < dimension(n) && control != a && control != b && bit_set(k as usize, control)
                && bit_set(k as usize, a) != bit_set(k as usize, b) {
                s[(k as usize ^ (bit_mask(a) | bit_mask(b))) as int]
            } else {
                s[k]
            },
    )
}

proof fn lemma_cswap_pattern(k: usize, control: usize, a: usize, b: usize)
    by (bit_vector)
    requires
        control < usize::BITS,
        a < usize::BITS,
        b < usize::BITS,
        a != b,
        control != a,
        control != b,
    ensures
        ({
            let c = 1usize << control;
            let p = 1usize << a;
            let q = 1usize << b;
            let f = p | q;
            &&& (k & (c | f) == c | q || (k ^ f) & (c | f) == c | q) <==> (k & c != 0 && ((k & p
                != 0) != (k & q != 0)))
            &&& f & (c | f) != 0
        }),
{
}

/// Specialised controlled-SWAP kernel: exchanges the amplitudes whose two bits differ only
/// where the control bit is set.
pub fn apply_cswap_kernel_seq(
    state: &mut [Complex64],
    control: usize,
    a: usize,
    b: usize,
    n: usize,
)
    requires
        n < usize::BITS,
        dimension(n) <= old(state)@.len(),
        control < usize::BITS,
        a < n,
        b < n,
    ensures
        final(state)@ == cswap_applied(old(state)@, n, control, a, b),
{
    let ghost before = state@;
    if control == a || control == b || a == b {
        assert(state@ =~= cswap_applied(before, n, control, a, b));
        return;
    }
    let control_bit: usize = 1usize << control;
    let a_bit: usize = 1usize << a;
    let b_bit: usize = 1usize << b;
    let both: usize = a_bit | b_bit;
    proof {
        lemma_cswap_pattern(0, control, a, b);
        lemma_mask_below(a, n);
        lemma_mask_below(b, n);
        lemma_combine_below(a_bit, b_bit, n);
    }
    exchange_pairs(state, n, control_bit | both, control_bit | b_bit, both);
    proof {
        assert forall|k: int| 0 <= k < before.len() implies #[trigger] state@[k] == cswap_applied(
            before,
            n,
            control,
            a,
            b,
        )[k] by {
            if k < dimension(n) {
                lemma_cswap_pattern(k as usize, control, a, b);
            }
        }
        assert(state@ =~= cswap_applied(before, n, control, a, b));
    }
}

/// Specialised controlled-SWAP kernel; see [`apply_cswap_kernel_seq`].
pub fn apply_cswap_kernel(state: &mut [Complex64], control: usize, a: usize, b: usize, n: usize)
    requires
        n < usize::BITS,
        dimension(n) <= old(state)@.len(),
        control < usize::BITS,
        a < n,
        b < n,
    ensures
        final(state)@ == cswap_applied(old(state)@, n, control, a, b),
{
    apply_cswap_kernel_seq(state, control, a, b, n)
}

/// The state after a controlled Z: the amplitudes of the states in which both qubits are set
/// are negated. A control that is also the target leaves the state as it is.
pub open spec fn cz_applied(s: Seq<Complex64>, n: usize, control: usize, target: usize) -> Seq<
    Complex64,
> {
    Seq::new(
        s.len(),
        |k: int|
            if k < dimension(n) && control != target && bit_set(k as usize, control) && bit_set(
                k as usize,
                target,
            ) {
                complex_neg(s[k])
            } else {
                s[k]
            },
    )
}

proof fn lemma_cz_pattern(k: usize, control: usize, target: usize)
    by (bit_vector)
    requires
        control < usize::BITS,
        target < usize::BITS,
    ensures
        ({
            let c = 1usize << control;
            let t = 1usize << target;
            k & (c | t) == (c | t) <==> (k & c != 0 && k & t != 0)
        }),
{
}

/// Specialised CZ kernel: only the subspace in which both qubits are 1 picks up a minus sign.
/// Applying it once more restores the state.
pub fn apply_cz_kernel_seq(state: &mut [Complex64], control: usize, target: usize, n: usize)
    requires
        n < usize::BITS,
        dimension(n) <= old(state)@.len(),
        control < usize::BITS,
        target < usize::BITS,
    ensures
        final(state)@ == cz_applied(old(state)@, n, control, target),
        cz_applied(final(state)@, n, control, target) == old(state)@,
{
    let ghost before = state@;
    if control == target {
        assert(state@ =~= cz_applied(before, n, control, target));
        assert(before =~= cz_applied(state@, n, control, target));
        return;
    }
    let both: usize = (1usize << control) | (1usize << target);
    let n_states: usize = 1usize << n;
    let mut i: usize = 0;
    while i < n_states
        invariant
            i <= n_states,
            n_states == dimension(n),
            n_states <= before.len(),
            state@.len() == before.len(),
            control < usize::BITS,
            target < usize::BITS,
            control != target,
            both == bit_mask(control) | bit_mask(target),
            forall|k: int|
                #![trigger state@[k]]
                0 <= k < before.len() ==> state@[k] == (if k < i {
                    cz_applied(before, n, control, target)[k]
                } else {
                    before[k]
                }),
            forall|k: int|
                0 <= k < i && bit_set(k as usize, control) && bit_set(k as usize, target)
                    ==> complex_neg(#[trigger] state@[k]) == before[k],
        decreases n_states - i,
    {
        proof {
            lemma_cz_pattern(i, control, target);
        }
        if i & both == both {
            let amp: Complex64 = state[i];
            state[i] = neg_complex(amp);
        }
        i = i + 1;
    }
    assert(state@ =~= cz_applied(before, n, control, target));
    assert(before =~= cz_applied(state@, n, control, target));
}

/// Specialised CZ kernel; see [`apply_cz_kernel_seq`].
pub fn apply_cz_kernel(state: &mut [Complex64], control: usize, target: usize, n: usize)
    requires
        n < usize::BITS,
        dimension(n) <= old(state)@.len(),
        control < usize::BITS,
        target < usize::BITS,
    ensures
        final(state)@ == cz_applied(old(state)@, n, control, target),
        cz_applied(final(state)@, n, control, target) == old(state)@,
{
    apply_cz_kernel_seq(state, control, target, n)
}

/// A one-qubit gate.
pub type Matrix2 = [[Complex64; 2]; 2];

/// The wires of some controls, whatever the value they ask for.
pub open spec fn control_wires(controls: Seq<(usize, bool)>) -> Seq<usize> {
    controls.map_values(|c: (usize, bool)| c.0)
}

/// Whether some control asks wire `q` to be set.
pub open spec fn asks_set(controls: Seq<(usize, bool)>, q: usize) -> bool {
    controls.contains((q, true))
}

/// Whether the basis state `i` satisfies the controls. A wire that occurs with both values
/// has to be set.
pub open spec fn controls_hold(i: usize, controls: Seq<(usize, bool)>) -> bool {
    forall|j: int|
        0 <= j < controls.len() ==> bit_set(i, (#[trigger] controls[j]).0) == asks_set(
            controls,
            controls[j].0,
        )
}

/// The bits that controls ask to be set.
spec fn desired_of(controls: Seq<(usize, bool)>) -> usize
    decreases controls.len(),
{
    if controls.len() == 0 {
        0
    } else if controls.last().1 {
        desired_of(controls.drop_last()) | bit_mask(controls.last().0)
    } else {
        desired_of(controls.drop_last())
    }
}

spec fn wires_fit(controls: Seq<(usize, bool)>) -> bool {
    forall|j: int| 0 <= j < controls.len() ==> (#[trigger] controls[j]).0 < usize::BITS
}

proof fn lemma_desired_bit(controls: Seq<(usize, bool)>, q: usize)
    requires
        wires_fit(controls),
        q < usize::BITS,
    ensures
        bit_set(desired_of(controls), q) <==> asks_set(controls, q),
    decreases controls.len(),
{
    if controls.len() == 0 {
        lemma_bit_ops(0, 0, q);
    } else {
        let rest = controls.drop_last();
        assert forall|j: int| 0 <= j < rest.len() implies (#[trigger] rest[j]).0 < usize::BITS by {
            assert(rest[j] == controls[j]);
        }
        lemma_desired_bit(rest, q);
        let last = controls.last();
        assert(controls[controls.len() - 1] == last);
        lemma_bit_ops(desired_of(rest), bit_mask(last.0), q);
        lemma_mask_bit(last.0, q);
        if asks_set(controls, q) {
            let j = choose|j: int| 0 <= j < controls.len() && controls[j] == (q, true);
            if j < rest.len() {
                assert(rest[j] == (q, true));
            }
        }
        if asks_set(rest, q) {
            let j = choose|j: int| 0 <= j < rest.len() && rest[j] == (q, true);
            assert(controls[j] == (q, true));
        }
    }
}

/// Comparing the control bits with the desired ones tests the controls.
proof fn lemma_controls(i: usize, controls: Seq<(usize, bool)>)
    requires
        wires_fit(controls),
    ensures
        i & mask_of(control_wires(controls)) == desired_of(controls) <==> controls_hold(i, controls),
{
    let wires = control_wires(controls);
    let inclusion = mask_of(wires);
    let desired = desired_of(controls);
    if i & inclusion == desired {
        assert forall|j: int| 0 <= j < controls.len() implies bit_set(i, (#[trigger] controls[j]).0)
            == asks_set(controls, controls[j].0) by {
            let q = controls[j].0;
            assert(wires[j] == q);
            lemma_mask_of_bit(wires, q);
            lemma_desired_bit(controls, q);
            lemma_bit_ops(i, inclusion, q);
        }
    }
    if controls_hold(i, controls) {
        assert forall|q: usize| q < usize::BITS implies bit_set(i & inclusion, q) == bit_set(
            desired,
            q,
        ) by {
            lemma_mask_of_bit(wires, q);
            lemma_desired_bit(controls, q);
            lemma_bit_ops(i, inclusion, q);
            if wires.contains(q) {
                let j = choose|j: int| 0 <= j < wires.len() && wires[j] == q;
                assert(controls[j].0 == q);
            } else if asks_set(controls, q) {
                let j = choose|j: int| 0 <= j < controls.len() && controls[j] == (q, true);
                assert(wires[j] == q);
            }
        }
        lemma_bits_determine(i & inclusion, desired);
    }
}

/// The state after a one-qubit gate on the pairs of amplitudes that differ in the target bit
/// and whose lower index satisfies the controls.
pub open spec fn one_qubit_applied(
    s: Seq<Complex64>,
    u: Matrix2,
    target: usize,
    n: usize,
    controls: Seq<(usize, bool)>,
) -> Seq<Complex64> {
    Seq::new(
        s.len(),
        |k: int|
            if k < dimension(n) && controls_hold(clear_bit(k as usize, target), controls) {
                let a = s[clear_bit(k as usize, target) as int];
                let b = s[with_bit(k as usize, target) as int];
                if bit_set(k as usize, target) {
                    complex_add(complex_mul(u[1][0], a), complex_mul(u[1][1], b))
                } else {
                    complex_add(complex_mul(u[0][0], a), complex_mul(u[0][1], b))
                }
            } else {
                s[k]
            },
    )
}

/// Applies a 2 by 2 gate to the `target` qubit. `controls` are pairs of a wire and the value
/// it must have.
pub fn apply_one_qubit_seq(
    state: &mut [Complex64],
    u: &Matrix2,
    target: usize,
    n: usize,
    controls: &[(usize, bool)],
)
    requires
        n < usize::BITS,
        dimension(n) <= old(state)@.len(),
        target < n,
        forall|j: int| 0 <= j < controls@.len() ==> (#[trigger] controls@[j]).0 < usize::BITS,
    ensures
        final(state)@ == one_qubit_applied(old(state)@, *u, target, n, controls@),
{
    let ghost before = state@;
    let mut inclusion_mask: usize = 0;
    let mut desired_mask: usize = 0;
    let mut c: usize = 0;
    while c < controls.len()
        invariant
            c <= controls@.len(),
            wires_fit(controls@),
            inclusion_mask == mask_of(control_wires(controls@.take(c as int))),
            desired_mask == desired_of(controls@.take(c as int)),
        decreases controls@.len() - c,
    {
        let (wire, flag): (usize, bool) = controls[c];
        assert(controls@[c as int].0 < usize::BITS);
        proof {
            let now = controls@.take(c as int);
            let next = controls@.take(c + 1);
            assert(next.drop_last() =~= now);
            assert(control_wires(next).drop_last() =~= control_wires(now));
        }
        inclusion_mask = inclusion_mask | (1usize << wire);
        if flag {
            desired_mask = desired_mask | (1usize << wire);
        }
        c = c + 1;
    }
    assert(controls@.take(c as int) =~= controls@);
    let half: usize = 1usize << target;
    let n_states: usize = 1usize << n;
    let ghost after = one_qubit_applied(before, *u, target, n, controls@);
    let mut i: usize = 0;
    while i < n_states
        invariant
            i <= n_states,
            n < usize::BITS,
            target < n,
            n_states == dimension(n),
            half == bit_mask(target),
            n_states <= before.len(),
            state@.len() == before.len(),
            wires_fit(controls@),
            inclusion_mask == mask_of(control_wires(controls@)),
            desired_mask == desired_of(controls@),
            after == one_qubit_applied(before, *u, target, n, controls@),
            forall|k: int| n_states <= k < before.len() ==> state@[k] == before[k],
            forall|k: usize|
                #![trigger state@[k as int]]
                k < n_states ==> state@[k as int] == (if clear_bit(k, target) < i {
                    after[k as int]
                } else {
                    before[k as int]
                }),
        decreases n_states - i,
    {
        proof {
            lemma_controls(i, controls@);
            lemma_bit_pair(i, target);
            lemma_mask_below(target, n);
            lemma_combine_below(i, half, n);
        }
        let ghost entry = state@;
        if i & half == 0 && i & inclusion_mask == desired_mask {
            let j: usize = i | half;
            proof {
                lemma_bit_pair(j, target);
            }
            let a: Complex64 = state[i];
            let b: Complex64 = state[j];
            state[i] = add_complex(mul_complex(u[0][0], a), mul_complex(u[0][1], b));
            state[j] = add_complex(mul_complex(u[1][0], a), mul_complex(u[1][1], b));
        }
        proof {
            assert forall|k: usize| #![trigger state@[k as int]] k < n_states implies state@[k as int] == (if clear_bit(
                k,
                target,
            ) < i + 1 {
                after[k as int]
            } else {
                before[k as int]
            }) by {
                lemma_bit_pair(k, target);
                assert(entry[k as int] == (if clear_bit(k, target) < i {
                    after[k as int]
                } else {
                    before[k as int]
                }));
            }
        }
        i = i + 1;
    }
    proof {
        assert forall|k: int| 0 <= k < before.len() implies #[trigger] state@[k] == after[k] by {
            if k < n_states {
                let x: usize = k as usize;
                lemma_bit_pair(x, target);
                assert(state@[x as int] == state@[k]);
            }
        }
        assert(state@ =~= after);
    }
}

/// Applies a 2 by 2 gate to the `target` qubit; see [`apply_one_qubit_seq`].
pub fn apply_one_qubit(
    state: &mut [Complex64],
    u: &Matrix2,
    target: usize,
    n: usize,
    controls: &[(usize, bool)],
)
    requires
        n < usize::BITS,
        dimension(n) <= old(state)@.len(),
        target < n,
        forall|j: int| 0 <= j < controls@.len() ==> (#[trigger] controls@[j]).0 < usize::BITS,
    ensures
        final(state)@ == one_qubit_applied(old(state)@, *u, target, n, controls@),
{
    apply_one_qubit_seq(state, u, target, n, controls)
}

} // verus!
