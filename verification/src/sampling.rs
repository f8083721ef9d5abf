//! Sampling from a discrete distribution.

use std::collections::HashMap;

use num_complex::Complex64;
use rand_chacha::ChaCha8Rng;
use vstd::prelude::*;

use crate::bits::{dimension, saturating_product};
use crate::complex::{
    add_complex, complex_add, complex_norm_sqr, complex_one, complex_zero, less_real, one,
    real_less, zero,
};
use crate::counts::{count_in, tally, Counts};
use crate::measure::{
    amplitudes_read, marginal, marginal_probs, marginal_weight, weights_add_up,
};
use crate::random::{draw_unit, drawn_unit};
use crate::text::{binary_text, format_binary};
use crate::wide_gate::{gate_index, qubits_fit};

verus! {

/// The generator after `count` real draws.
pub open spec fn rng_after(rng: ChaCha8Rng, count: nat) -> ChaCha8Rng
    decreases count,
{
    if count == 0 {
        rng
    } else {
        drawn_unit(rng_after(rng, (count - 1) as nat)).1
    }
}

/// The sum of the first `count` numbers, added up in order.
pub open spec fn partial_sum(probs: Seq<Complex64>, count: nat) -> Complex64
    decreases count,
{
    if count == 0 {
        complex_zero()
    } else {
        complex_add(partial_sum(probs, (count - 1) as nat), probs[count - 1])
    }
}

/// The cumulative distribution of some probabilities; its last value is set to 1.
pub open spec fn cumulative(probs: Seq<Complex64>) -> Seq<Complex64> {
    Seq::new(
        probs.len(),
        |i: int|
            if i == probs.len() - 1 {
                complex_one()
            } else {
                partial_sum(probs, (i + 1) as nat)
            },
    )
}

/// Whether numbers rise, apart from the last one: what one of them is below, those before it
/// are below.
pub open spec fn is_rising(cdf: Seq<Complex64>) -> bool {
    forall|i: int, j: int, x: Complex64|
        0 <= i < j < cdf.len() - 1 && #[trigger] real_less(cdf[j], x) ==> #[trigger] real_less(
            cdf[i],
            x,
        )
}

/// Whether no number is below zero.
pub open spec fn none_negative(probs: Seq<Complex64>) -> bool {
    forall|i: int| 0 <= i < probs.len() ==> !real_less(#[trigger] probs[i], complex_zero())
}

/// The cumulative distribution of some probabilities. It rises where none of them is negative.
pub fn cumulative_distribution(probs: &[Complex64]) -> (cdf: Vec<Complex64>)
    ensures
        cdf@ == cumulative(probs@),
        none_negative(probs@) ==> is_rising(cdf@),
{
    let mut cdf: Vec<Complex64> = Vec::new();
    let mut acc: Complex64 = zero();
    let mut i: usize = 0;
    while i < probs.len()
        invariant
            i <= probs@.len(),
            cdf@.len() == i,
            acc == partial_sum(probs@, i as nat),
            forall|j: int| 0 <= j < i ==> #[trigger] cdf@[j] == partial_sum(probs@, (j + 1) as nat),
            i > 0 ==> acc == cdf@[i - 1],
            none_negative(probs@) ==> forall|a: int, b: int, x: Complex64|
                0 <= a < b < i && #[trigger] real_less(cdf@[b], x) ==> #[trigger] real_less(
                    cdf@[a],
                    x,
                ),
        decreases probs@.len() - i,
    {
        let ghost was = cdf@;
        let sum: Complex64 = add_complex(acc, probs[i]);
        cdf.push(sum);
        proof {
            if none_negative(probs@) {
                assert(!real_less(probs@[i as int], complex_zero()));
                assert forall|a: int, b: int, x: Complex64|
                    0 <= a < b < i + 1 && #[trigger] real_less(
                        cdf@[b],
                        x,
                    ) implies #[trigger] real_less(cdf@[a], x) by {
                    if b < i {
                        assert(real_less(was[b], x));
                        assert(real_less(was[a], x));
                    } else {
                        assert(real_less(sum, x));
                        assert(real_less(acc, x));
                        if a < i - 1 {
                            assert(real_less(was[i - 1], x));
                            assert(real_less(was[a], x));
                        }
                    }
                }
            }
        }
        acc = sum;
        i = i + 1;
    }
    let ghost sums = cdf@;
    if cdf.len() > 0 {
        let last: usize = cdf.len() - 1;
        cdf[last] = one();
    }
    assert(cdf@ =~= cumulative(probs@));
    proof {
        if none_negative(probs@) {
            assert forall|a: int, b: int, x: Complex64|
                0 <= a < b < cdf@.len() - 1 && #[trigger] real_less(
                    cdf@[b],
                    x,
                ) implies #[trigger] real_less(cdf@[a], x) by {
                assert(real_less(sums[b], x));
                assert(real_less(sums[a], x));
            }
        }
    }
    cdf
}

/// Whether `b` separates numbers below `r` from numbers that are not.
pub open spec fn is_boundary(cdf: Seq<Complex64>, r: Complex64, b: int) -> bool {
    &&& 0 <= b <= cdf.len()
    &&& b > 0 ==> real_less(cdf[b - 1], r)
    &&& b < cdf.len() ==> !real_less(cdf[b], r)
}

/// Whether `idx` is what the draw `r` selects: the first place at which the distribution
/// reaches `r`, and the last place at most.
pub open spec fn is_sample(cdf: Seq<Complex64>, r: Complex64, idx: int) -> bool {
    exists|b: int| #[trigger]
        is_boundary(cdf, r, b) && idx == (if b < cdf.len() || cdf.len() == 0 {
            b
        } else {
            cdf.len() - 1
        })
}

/// Whether the numbers below `r` all stand before the others.
pub open spec fn is_partitioned(cdf: Seq<Complex64>, r: Complex64) -> bool {
    forall|i: int, j: int|
        0 <= i < j < cdf.len() && real_less(#[trigger] cdf[j], r) ==> real_less(
            #[trigger] cdf[i],
            r,
        )
}

/// In a distribution that a draw splits in two, the draw selects exactly one place: the first
/// one whose value is not below the draw, or the last place if there is none.
pub proof fn law_sample_is_unique(cdf: Seq<Complex64>, r: Complex64, i: int, j: int)
    requires
        is_partitioned(cdf, r),
        is_sample(cdf, r, i),
        is_sample(cdf, r, j),
    ensures
        i == j,
{
    let a = choose|b: int| #[trigger]
        is_boundary(cdf, r, b) && i == (if b < cdf.len() || cdf.len() == 0 {
            b
        } else {
            cdf.len() - 1
        });
    let c = choose|b: int| #[trigger]
        is_boundary(cdf, r, b) && j == (if b < cdf.len() || cdf.len() == 0 {
            b
        } else {
            cdf.len() - 1
        });
    if a < c {
        assert(real_less(cdf[c - 1], r));
        if a < c - 1 {
            assert(real_less(cdf[a], r));
        }
    } else if c < a {
        assert(real_less(cdf[a - 1], r));
        if c < a - 1 {
            assert(real_less(cdf[c], r));
        }
    }
}

/// Draws one place from a cumulative distribution.
pub fn sample_cdf(cdf: &[Complex64], rng: &mut ChaCha8Rng) -> (idx: usize)
    ensures
        *final(rng) == drawn_unit(*old(rng)).1,
        is_sample(cdf@, drawn_unit(*old(rng)).0, idx as int),
        cdf@.len() > 0 ==> idx < cdf@.len(),
        !real_less(complex_one(), drawn_unit(*old(rng)).0),
{
    let r: Complex64 = draw_unit(rng);
    let mut lo: usize = 0;
    let mut hi: usize = cdf.len();
    while lo < hi
        invariant
            lo <= hi <= cdf@.len(),
            lo > 0 ==> real_less(cdf@[lo - 1], r),
            hi < cdf@.len() ==> !real_less(cdf@[hi as int], r),
        decreases hi - lo,
    {
        let mid: usize = lo + (hi - lo) / 2;
        if less_real(cdf[mid], r) {
            lo = mid + 1;
        } else {
            hi = mid;
        }
    }
    assert(is_boundary(cdf@, r, lo as int));
    if lo < cdf.len() || cdf.len() == 0 {
        lo
    } else {
        cdf.len() - 1
    }
}

/// Whether `idxs` are the places that `shots` draws select, one after another.
pub open spec fn is_sampling(
    cdf: Seq<Complex64>,
    rng: ChaCha8Rng,
    shots: nat,
    idxs: Seq<usize>,
) -> bool {
    &&& idxs.len() == shots
    &&& forall|s: int|
        0 <= s < shots ==> #[trigger] idxs[s] < cdf.len() && is_sample(
            cdf,
            drawn_unit(rng_after(rng, s as nat)).0,
            idxs[s] as int,
        )
}

/// Whether none of the first `shots` draws of a generator is above 1.
pub open spec fn draws_units(rng: ChaCha8Rng, shots: nat) -> bool {
    forall|s: nat|
        s < shots ==> !real_less(complex_one(), #[trigger] drawn_unit(rng_after(rng, s)).0)
}

/// Whether `idxs` are the only places that the draws can select.
pub open spec fn is_only_sampling(
    cdf: Seq<Complex64>,
    rng: ChaCha8Rng,
    shots: nat,
    idxs: Seq<usize>,
) -> bool {
    forall|other: Seq<usize>| #[trigger] is_sampling(cdf, rng, shots, other) ==> other == idxs
}

/// Draws up to 1 select their places in a rising distribution that ends with 1 in one way only.
pub proof fn law_sampling_is_unique(
    cdf: Seq<Complex64>,
    rng: ChaCha8Rng,
    shots: nat,
    idxs: Seq<usize>,
)
    requires
        cdf.len() > 0,
        is_rising(cdf),
        cdf.last() == complex_one(),
        draws_units(rng, shots),
        is_sampling(cdf, rng, shots, idxs),
    ensures
        is_only_sampling(cdf, rng, shots, idxs),
{
    assert forall|other: Seq<usize>| #[trigger] is_sampling(
        cdf,
        rng,
        shots,
        other,
    ) implies other == idxs by {
        assert forall|s: int| 0 <= s < shots implies other[s] == idxs[s] by {
            let r = drawn_unit(rng_after(rng, s as nat)).0;
            assert(!real_less(complex_one(), r));
            assert(is_partitioned(cdf, r));
            assert(other[s] < cdf.len() && idxs[s] < cdf.len());
            law_sample_is_unique(cdf, r, other[s] as int, idxs[s] as int);
        }
        assert(other =~= idxs);
    }
}

/// How often `x` occurs in `s`.
pub open spec fn occurrences<T>(s: Seq<T>, x: T) -> nat
    decreases s.len(),
{
    if s.len() == 0 {
        0
    } else {
        occurrences(s.drop_last(), x) + if s.last() == x {
            1nat
        } else {
            0nat
        }
    }
}

/// Whether `pairs` lists every place of `idxs` once, with the number of times it occurs.
pub open spec fn is_tally_of(pairs: Seq<(usize, usize)>, idxs: Seq<usize>) -> bool {
    &&& forall|a: int, b: int|
        0 <= a < b < pairs.len() ==> (#[trigger] pairs[a]).0 != (#[trigger] pairs[b]).0
    &&& forall|p: int|
        0 <= p < pairs.len() ==> (#[trigger] pairs[p]).1 > 0 && pairs[p].1 == occurrences(
            idxs,
            pairs[p].0,
        )
    &&& forall|s: int| 0 <= s < idxs.len() ==> listed(pairs, pairs.len() as int, #[trigger] idxs[s])
}

/// Whether `x` is one of the first `m` places listed.
pub open spec fn listed(pairs: Seq<(usize, usize)>, m: int, x: usize) -> bool {
    exists|p: int| 0 <= p < m && (#[trigger] pairs[p]).0 == x
}

pub proof fn lemma_occurrences_bound<T>(s: Seq<T>, x: T)
    ensures
        occurrences(s, x) <= s.len(),
        occurrences(s, x) > 0 <==> s.contains(x),
    decreases s.len(),
{
    if s.len() > 0 {
        let rest = s.drop_last();
        lemma_occurrences_bound(rest, x);
        if s.contains(x) {
            let j = choose|j: int| 0 <= j < s.len() && s[j] == x;
            if j < rest.len() {
                assert(rest[j] == x);
            }
        }
        if rest.contains(x) {
            let j = choose|j: int| 0 <= j < rest.len() && rest[j] == x;
            assert(s[j] == x);
        }
        if s.last() == x {
            assert(s[s.len() - 1] == x);
        }
    }
}

/// Draws `shots` places and counts them. Few draws from a large distribution are counted in a
/// map, others in one counter for every place.
pub fn sample_cdf_counts(cdf: &[Complex64], shots: usize, rng: &mut ChaCha8Rng) -> (pairs: Vec<
    (usize, usize),
>)
    ensures
        cdf@.len() == 0 || shots == 0 ==> pairs@.len() == 0 && *final(rng) == *old(rng),
        cdf@.len() > 0 ==> draws_units(*old(rng), shots as nat),
        cdf@.len() > 0 ==> *final(rng) == rng_after(*old(rng), shots as nat) && exists|
            idxs: Seq<usize>,
        |
            is_sampling(cdf@, *old(rng), shots as nat, idxs) && #[trigger] is_tally_of(
                pairs@,
                idxs,
            ),
{
    if cdf.len() == 0 || shots == 0 {
        let pairs: Vec<(usize, usize)> = Vec::new();
        proof {
            if cdf@.len() > 0 {
                let idxs = Seq::<usize>::empty();
                assert(is_sampling(cdf@, *rng, 0, idxs));
                assert(is_tally_of(pairs@, idxs));
            }
        }
        return pairs;
    }
    if saturating_product(shots, 4) < cdf.len() {
        sample_sparse(cdf, shots, rng)
    } else {
        sample_dense(cdf, shots, rng)
    }
}

/// Counts draws with one counter for every place.
fn sample_dense(cdf: &[Complex64], shots: usize, rng: &mut ChaCha8Rng) -> (pairs: Vec<
    (usize, usize),
>)
    requires
        cdf@.len() > 0,
    ensures
        *final(rng) == rng_after(*old(rng), shots as nat),
        draws_units(*old(rng), shots as nat),
        exists|idxs: Seq<usize>|
            is_sampling(cdf@, *old(rng), shots as nat, idxs) && #[trigger] is_tally_of(pairs@, idxs),
{
    let ghost start = *rng;
    let ghost mut idxs: Seq<usize> = Seq::empty();
    let mut sampled: Vec<usize> = Vec::new();
    let mut c: usize = 0;
    while c < cdf.len()
        invariant
            c <= cdf@.len(),
            sampled@.len() == c,
            forall|x: int| 0 <= x < c ==> #[trigger] sampled@[x] == 0,
        decreases cdf@.len() - c,
    {
        sampled.push(0);
        c = c + 1;
    }
    let mut shot: usize = 0;
    while shot < shots
        invariant
            shot <= shots,
            cdf@.len() > 0,
            sampled@.len() == cdf@.len(),
            *rng == rng_after(start, shot as nat),
            draws_units(start, shot as nat),
            is_sampling(cdf@, start, shot as nat, idxs),
            forall|x: usize|
                #![trigger sampled@[x as int]]
                x < sampled@.len() ==> sampled@[x as int] == occurrences(idxs, x),
        decreases shots - shot,
    {
        let idx: usize = sample_cdf(cdf, rng);
        proof {
            lemma_occurrences_bound(idxs, idx);
            assert(idxs.push(idx).drop_last() =~= idxs);
            let next = idxs.push(idx);
            assert forall|s: int| 0 <= s < shot + 1 implies #[trigger] next[s] < cdf@.len()
                && is_sample(cdf@, drawn_unit(rng_after(start, s as nat)).0, next[s] as int) by {
                if s < shot {
                    assert(next[s] == idxs[s]);
                }
            }
        }
        let ghost was = sampled@;
        let count: usize = sampled[idx];
        sampled[idx] = count + 1;
        proof {
            assert forall|x: usize| #![trigger sampled@[x as int]] x < sampled@.len() implies sampled@[x as int]
                == occurrences(idxs.push(idx), x) by {
                assert(was[x as int] == occurrences(idxs, x));
            }
            idxs = idxs.push(idx);
        }
        shot = shot + 1;
    }
    let mut pairs: Vec<(usize, usize)> = Vec::new();
    let mut x: usize = 0;
    while x < sampled.len()
        invariant
            x <= sampled@.len(),
            forall|y: usize|
                #![trigger sampled@[y as int]]
                y < sampled@.len() ==> sampled@[y as int] == occurrences(idxs, y),
            forall|a: int, b: int|
                0 <= a < b < pairs@.len() ==> (#[trigger] pairs@[a]).0 != (#[trigger] pairs@[b]).0,
            forall|p: int|
                0 <= p < pairs@.len() ==> (#[trigger] pairs@[p]).0 < x && pairs@[p].1 > 0
                    && pairs@[p].1 == occurrences(idxs, pairs@[p].0),
            forall|y: usize|
                y < x && #[trigger] occurrences(idxs, y) > 0 ==> listed(
                    pairs@,
                    pairs@.len() as int,
                    y,
                ),
        decreases sampled@.len() - x,
    {
        let ghost was = pairs@;
        if sampled[x] != 0 {
            pairs.push((x, sampled[x]));
            assert(pairs@[was.len() as int].0 == x);
        }
        proof {
            assert forall|y: usize| y < x + 1 && #[trigger] occurrences(idxs, y) > 0 implies listed(
                pairs@,
                pairs@.len() as int,
                y,
            ) by {
                if y < x {
                    let p = choose|p: int| 0 <= p < was.len() && (#[trigger] was[p]).0 == y;
                    assert(pairs@[p].0 == y);
                } else {
                    assert(sampled@[x as int] == occurrences(idxs, x));
                }
            }
        }
        x = x + 1;
    }
    proof {
        assert forall|s: int| 0 <= s < idxs.len() implies listed(
            pairs@,
            pairs@.len() as int,
            #[trigger] idxs[s],
        ) by {
            lemma_occurrences_bound(idxs, idxs[s]);
        }
        assert(is_tally_of(pairs@, idxs));
    }
    pairs
}

/// Counts draws in a map from places to numbers.
fn sample_sparse(cdf: &[Complex64], shots: usize, rng: &mut ChaCha8Rng) -> (pairs: Vec<
    (usize, usize),
>)
    requires
        cdf@.len() > 0,
    ensures
        *final(rng) == rng_after(*old(rng), shots as nat),
        draws_units(*old(rng), shots as nat),
        exists|idxs: Seq<usize>|
            is_sampling(cdf@, *old(rng), shots as nat, idxs) && #[trigger] is_tally_of(pairs@, idxs),
{
    broadcast use vstd::std_specs::hash::group_hash_axioms;

    let ghost start = *rng;
    let ghost mut idxs: Seq<usize> = Seq::empty();
    let mut sampled: HashMap<usize, usize> = HashMap::new();
    let mut order: Vec<usize> = Vec::new();
    let mut shot: usize = 0;
    while shot < shots
        invariant
            shot <= shots,
            cdf@.len() > 0,
            *rng == rng_after(start, shot as nat),
            draws_units(start, shot as nat),
            is_sampling(cdf@, start, shot as nat, idxs),
            forall|x: usize| #[trigger] sampled@.dom().contains(x) <==> order@.contains(x),
            forall|x: usize|
                #[trigger] sampled@.dom().contains(x) ==> sampled@[x] > 0 && sampled@[x]
                    == occurrences(idxs, x),
            forall|x: usize| #[trigger] occurrences(idxs, x) > 0 ==> sampled@.dom().contains(x),
            forall|a: int, b: int|
                0 <= a < b < order@.len() ==> #[trigger] order@[a] != #[trigger] order@[b],
        decreases shots - shot,
    {
        let idx: usize = sample_cdf(cdf, rng);
        proof {
            lemma_occurrences_bound(idxs, idx);
            assert(idxs.push(idx).drop_last() =~= idxs);
            let next = idxs.push(idx);
            assert forall|s: int| 0 <= s < shot + 1 implies #[trigger] next[s] < cdf@.len()
                && is_sample(cdf@, drawn_unit(rng_after(start, s as nat)).0, next[s] as int) by {
                if s < shot {
                    assert(next[s] == idxs[s]);
                }
            }
            assert forall|x: usize| #[trigger] occurrences(next, x) == occurrences(idxs, x) + if x
                == idx {
                1nat
            } else {
                0nat
            } by {}
        }
        let ghost was = order@;
        let count: usize = match sampled.get(&idx) {
            Some(count) => *count,
            None => 0,
        };
        if count == 0 {
            order.push(idx);
            proof {
                assert(!was.contains(idx));
                assert(order@[was.len() as int] == idx);
                assert forall|x: usize| order@.contains(x) <==> was.contains(x) || x == idx by {
                    if was.contains(x) {
                        let j = choose|j: int| 0 <= j < was.len() && was[j] == x;
                        assert(order@[j] == x);
                    }
                    if order@.contains(x) {
                        let j = choose|j: int| 0 <= j < order@.len() && order@[j] == x;
                        if j < was.len() {
                            assert(was[j] == x);
                        }
                    }
                }
            }
        }
        sampled.insert(idx, count + 1);
        proof {
            idxs = idxs.push(idx);
        }
        shot = shot + 1;
    }
    let mut pairs: Vec<(usize, usize)> = Vec::new();
    let mut p: usize = 0;
    while p < order.len()
        invariant
            p <= order@.len(),
            pairs@.len() == p,
            forall|x: usize| #[trigger] sampled@.dom().contains(x) <==> order@.contains(x),
            forall|x: usize|
                #[trigger] sampled@.dom().contains(x) ==> sampled@[x] > 0 && sampled@[x]
                    == occurrences(idxs, x),
            forall|q: int|
                0 <= q < p ==> (#[trigger] pairs@[q]).0 == order@[q] && pairs@[q].1 > 0
                    && pairs@[q].1 == occurrences(idxs, order@[q]),
        decreases order@.len() - p,
    {
        let idx: usize = order[p];
        assert(order@.contains(idx));
        assert(sampled@.dom().contains(idx));
        let count: usize = match sampled.get(&idx) {
            Some(count) => *count,
            None => 0,
        };
        pairs.push((idx, count));
        p = p + 1;
    }
    proof {
        assert forall|s: int| 0 <= s < idxs.len() implies listed(
            pairs@,
            pairs@.len() as int,
            #[trigger] idxs[s],
        ) by {
            lemma_occurrences_bound(idxs, idxs[s]);
            assert(sampled@.dom().contains(idxs[s]));
            let q = choose|q: int| 0 <= q < order@.len() && order@[q] == idxs[s];
            assert(pairs@[q].0 == idxs[s]);
        }
        assert(is_tally_of(pairs@, idxs));
    }
    pairs
}

/// The number of places in `idxs` that are among the first `m` listed ones and that `f` maps
/// to `key`.
spec fn covered(
    idxs: Seq<usize>,
    pairs: Seq<(usize, usize)>,
    m: int,
    f: spec_fn(usize) -> Seq<char>,
    key: Seq<char>,
) -> nat
    decreases idxs.len(),
{
    if idxs.len() == 0 {
        0
    } else {
        covered(idxs.drop_last(), pairs, m, f, key) + if f(idxs.last()) == key && listed(
            pairs,
            m,
            idxs.last(),
        ) {
            1nat
        } else {
            0nat
        }
    }
}

proof fn lemma_covered_step(
    idxs: Seq<usize>,
    pairs: Seq<(usize, usize)>,
    m: int,
    f: spec_fn(usize) -> Seq<char>,
    key: Seq<char>,
)
    requires
        0 <= m < pairs.len(),
        forall|a: int, b: int|
            0 <= a < b < pairs.len() ==> (#[trigger] pairs[a]).0 != (#[trigger] pairs[b]).0,
    ensures
        covered(idxs, pairs, m + 1, f, key) == covered(idxs, pairs, m, f, key) + if f(pairs[m].0)
            == key {
            occurrences(idxs, pairs[m].0)
        } else {
            0
        },
    decreases idxs.len(),
{
    if idxs.len() > 0 {
        lemma_covered_step(idxs.drop_last(), pairs, m, f, key);
        let x = idxs.last();
        if listed(pairs, m + 1, x) && x != pairs[m].0 {
            let p = choose|p: int| 0 <= p < m + 1 && (#[trigger] pairs[p]).0 == x;
            assert(pairs[p].0 == x && p < m);
        }
        if listed(pairs, m, x) {
            let p = choose|p: int| 0 <= p < m && (#[trigger] pairs[p]).0 == x;
            assert(pairs[p].0 == x && p < m + 1);
            assert(pairs[p].0 != pairs[m].0);
        }
        if x == pairs[m].0 {
            assert(listed(pairs, m + 1, x));
        }
    }
}

proof fn lemma_covered_bounds(
    idxs: Seq<usize>,
    pairs: Seq<(usize, usize)>,
    m: int,
    f: spec_fn(usize) -> Seq<char>,
    key: Seq<char>,
)
    ensures
        covered(idxs, pairs, m, f, key) <= idxs.len(),
        m == 0 ==> covered(idxs, pairs, m, f, key) == 0,
    decreases idxs.len(),
{
    if idxs.len() > 0 {
        lemma_covered_bounds(idxs.drop_last(), pairs, m, f, key);
    }
}

proof fn lemma_covered_all(
    idxs: Seq<usize>,
    pairs: Seq<(usize, usize)>,
    f: spec_fn(usize) -> Seq<char>,
    key: Seq<char>,
)
    requires
        forall|s: int|
            0 <= s < idxs.len() ==> listed(pairs, pairs.len() as int, #[trigger] idxs[s]),
    ensures
        covered(idxs, pairs, pairs.len() as int, f, key) == occurrences(idxs.map_values(f), key),
    decreases idxs.len(),
{
    let keys = idxs.map_values(f);
    if idxs.len() > 0 {
        let rest = idxs.drop_last();
        assert forall|s: int| 0 <= s < rest.len() implies listed(
            pairs,
            pairs.len() as int,
            #[trigger] rest[s],
        ) by {
            assert(rest[s] == idxs[s]);
        }
        lemma_covered_all(rest, pairs, f, key);
        assert(keys.drop_last() =~= rest.map_values(f));
        assert(listed(pairs, pairs.len() as int, idxs[idxs.len() - 1]));
    }
}

/// A tally holds the number of occurrences of every outcome that came up.
pub proof fn law_tally_counts_occurrences(keys: Seq<Seq<char>>, key: Seq<char>)
    ensures
        tally(keys).dom().contains(key) <==> occurrences(keys, key) > 0,
        count_in(tally(keys), key) == occurrences(keys, key),
    decreases keys.len(),
{
    if keys.len() > 0 {
        law_tally_counts_occurrences(keys.drop_last(), key);
    }
}

/// Counts the outcomes that the listed places stand for.
pub(crate) fn count_outcomes<F: Fn(usize) -> String>(
    pairs: &Vec<(usize, usize)>,
    to_key: F,
    Ghost(f): Ghost<spec_fn(usize) -> Seq<char>>,
    Ghost(idxs): Ghost<Seq<usize>>,
) -> (counts: Counts)
    requires
        is_tally_of(pairs@, idxs),
        idxs.len() <= usize::MAX,
        forall|p: int| 0 <= p < pairs@.len() ==> to_key.requires(((#[trigger] pairs@[p]).0,)),
        forall|x: usize, text: String| #[trigger]
            to_key.ensures((x,), text) ==> text@ == f(x),
    ensures
        counts.wf(),
        counts@ == tally(idxs.map_values(f)),
        counts.total() == idxs.len(),
{
    let ghost any = |x: usize| Seq::<char>::empty();
    let ghost none = Seq::<char>::empty();
    let mut counts: Counts = Counts::new();
    let mut m: usize = 0;
    proof {
        lemma_covered_bounds(idxs, pairs@, 0, any, none);
        assert forall|key: Seq<char>| #[trigger] covered(idxs, pairs@, 0, f, key) == 0 by {
            lemma_covered_bounds(idxs, pairs@, 0, f, key);
        }
    }
    while m < pairs.len()
        invariant
            m <= pairs@.len(),
            is_tally_of(pairs@, idxs),
            idxs.len() <= usize::MAX,
            forall|p: int| 0 <= p < pairs@.len() ==> to_key.requires(((#[trigger] pairs@[p]).0,)),
            forall|x: usize, text: String| #[trigger]
                to_key.ensures((x,), text) ==> text@ == f(x),
            counts.wf(),
            any == (|x: usize| Seq::<char>::empty()),
            none == Seq::<char>::empty(),
            counts.total() == covered(idxs, pairs@, m as int, any, none),
            forall|key: Seq<char>|
                #![trigger counts@.dom().contains(key)]
                counts@.dom().contains(key) <==> covered(idxs, pairs@, m as int, f, key) > 0,
            forall|key: Seq<char>|
                #![trigger counts@[key]]
                counts@.dom().contains(key) ==> counts@[key] == covered(
                    idxs,
                    pairs@,
                    m as int,
                    f,
                    key,
                ),
        decreases pairs@.len() - m,
    {
        let (idx, count): (usize, usize) = pairs[m];
        assert(pairs@[m as int] == (idx, count));
        let key: String = to_key(idx);
        proof {
            lemma_covered_step(idxs, pairs@, m as int, any, none);
            lemma_covered_bounds(idxs, pairs@, m + 1, any, none);
            assert forall|k: Seq<char>| #[trigger]
                covered(idxs, pairs@, m + 1, f, k) == covered(idxs, pairs@, m as int, f, k) + if f(
                    idx,
                ) == k {
                    count as nat
                } else {
                    0
                } by {
                lemma_covered_step(idxs, pairs@, m as int, f, k);
            }
        }
        let ghost was = counts@;
        counts.add(key, count);
        proof {
            assert forall|k: Seq<char>| #![trigger counts@.dom().contains(k)] counts@.dom().contains(k) <==> covered(
                idxs,
                pairs@,
                m + 1,
                f,
                k,
            ) > 0 by {
                assert(was.dom().contains(k) <==> covered(idxs, pairs@, m as int, f, k) > 0);
            }
            assert forall|k: Seq<char>| #![trigger counts@[k]] counts@.dom().contains(k) implies counts@[k]
                == covered(idxs, pairs@, m + 1, f, k) by {
                assert(was.dom().contains(k) <==> covered(idxs, pairs@, m as int, f, k) > 0);
                assert(was.dom().contains(k) ==> was[k] == covered(idxs, pairs@, m as int, f, k));
            }
        }
        m = m + 1;
    }
    proof {
        lemma_covered_all(idxs, pairs@, any, none);
        lemma_constant_occurrences(idxs);
        let keys = idxs.map_values(f);
        assert forall|k: Seq<char>| counts@.dom().contains(k) <==> #[trigger] tally(keys).dom().contains(k) by {
            lemma_covered_all(idxs, pairs@, f, k);
            law_tally_counts_occurrences(keys, k);
        }
        assert forall|k: Seq<char>| #[trigger] counts@.dom().contains(k) implies counts@[k] == tally(
            keys,
        )[k] by {
            lemma_covered_all(idxs, pairs@, f, k);
            law_tally_counts_occurrences(keys, k);
        }
        assert(counts@ =~= tally(keys));
    }
    counts
}

proof fn lemma_constant_occurrences(idxs: Seq<usize>)
    ensures
        occurrences(
            idxs.map_values(|x: usize| Seq::<char>::empty()),
            Seq::<char>::empty(),
        ) == idxs.len(),
    decreases idxs.len(),
{
    let f = |x: usize| Seq::<char>::empty();
    if idxs.len() > 0 {
        lemma_constant_occurrences(idxs.drop_last());
        assert(idxs.map_values(f).drop_last() =~= idxs.drop_last().map_values(f));
    }
}

/// The numbers below `n`, in descending order.
pub open spec fn descending(n: usize) -> Seq<usize> {
    Seq::new(n as nat, |i: int| (n - 1 - i) as usize)
}

proof fn lemma_shift_step(i: usize, k: usize)
    by (bit_vector)
    requires
        k + 1 < usize::BITS,
    ensures
        (i & (1usize << k) != 0) ==> i >> k == 2 * (i >> ((k + 1) as usize)) + 1,
        (i & (1usize << k) == 0) ==> i >> k == 2 * (i >> ((k + 1) as usize)),
{
}

proof fn lemma_shift_ends(i: usize, n: usize)
    by (bit_vector)
    requires
        n < usize::BITS,
        i < 1usize << n,
    ensures
        i >> n == 0,
        i >> 0usize == i,
{
}

proof fn lemma_leading_qubits(i: usize, n: usize, m: int)
    requires
        n < usize::BITS,
        i < dimension(n),
        0 <= m <= n,
    ensures
        gate_index(i, descending(n).take(m)) == i >> ((n - m) as usize),
    decreases m,
{
    lemma_shift_ends(i, n);
    if m > 0 {
        lemma_leading_qubits(i, n, m - 1);
        let now = descending(n).take(m);
        assert(now.drop_last() =~= descending(n).take(m - 1));
        let k = (n - m) as usize;
        assert(now.last() == k);
        lemma_shift_step(i, k);
        assert((k + 1) as usize == (n - (m - 1)) as usize);
    }
}

/// All qubits in descending order read the number of a basis state.
pub proof fn law_all_qubits_read_the_number(i: usize, n: usize)
    requires
        n < usize::BITS,
        i < dimension(n),
    ensures
        gate_index(i, descending(n)) == i,
{
    lemma_leading_qubits(i, n, n as int);
    lemma_shift_ends(i, n);
    assert(descending(n).take(n as int) =~= descending(n));
}

proof fn lemma_weight_of_all(s: Seq<Complex64>, n: usize, o: nat, count: nat)
    requires
        n < usize::BITS,
        o < dimension(n),
        count <= dimension(n),
    ensures
        marginal_weight(s, descending(n), o, count) == (if o < count {
            complex_add(complex_zero(), complex_norm_sqr(s[o as int]))
        } else {
            complex_zero()
        }),
    decreases count,
{
    if count > 0 {
        lemma_weight_of_all(s, n, o, (count - 1) as nat);
        law_all_qubits_read_the_number((count - 1) as usize, n);
    }
}

/// The distribution of all qubits in descending order holds the squared moduli of the
/// amplitudes.
pub proof fn law_distribution_of_all_qubits(s: Seq<Complex64>, n: usize)
    requires
        n < usize::BITS,
        dimension(n) <= s.len(),
        weights_add_up(s, amplitudes_read(s, n)),
    ensures
        marginal(s, n, descending(n)) == s.take(dimension(n) as int).map_values(
            |amplitude: Complex64| complex_norm_sqr(amplitude),
        ),
{
    let probs = marginal(s, n, descending(n));
    assert forall|o: int| 0 <= o < dimension(n) implies #[trigger] probs[o] == complex_norm_sqr(
        s[o],
    ) by {
        lemma_weight_of_all(s, n, o as nat, dimension(n) as nat);
        assert(complex_add(complex_zero(), complex_norm_sqr(s[o])) == complex_norm_sqr(s[o]));
    }
    assert(probs =~= s.take(dimension(n) as int).map_values(
        |amplitude: Complex64| complex_norm_sqr(amplitude),
    ));
}

/// The qubits `n - 1`, ..., `1`, `0`.
pub fn all_qubits(n: usize) -> (r: Vec<usize>)
    ensures
        r@ == descending(n),
{
    let mut qubits: Vec<usize> = Vec::new();
    let mut i: usize = 0;
    while i < n
        invariant
            i <= n,
            qubits@ == descending(n).take(i as int),
        decreases n - i,
    {
        qubits.push(n - 1 - i);
        i = i + 1;
        assert(qubits@ =~= descending(n).take(i as int));
    }
    assert(qubits@ =~= descending(n));
    qubits
}

/// The given qubits, or all qubits in descending order.
pub open spec fn chosen_qubits(qubits: Option<&[usize]>, n: usize) -> Seq<usize> {
    match qubits {
        Some(qs) => qs@,
        None => descending(n),
    }
}

/// The outcome that a place stands for when places are written in binary.
pub open spec fn binary_keys(width: nat) -> spec_fn(usize) -> Seq<char> {
    |idx: usize| binary_text(idx, width)
}

/// Whether `m` is the tally of the outcomes of `shots` draws from a cumulative distribution,
/// where `f` gives the outcome that a place stands for.
pub open spec fn is_sampled_counts(
    cdf: Seq<Complex64>,
    rng: ChaCha8Rng,
    shots: nat,
    f: spec_fn(usize) -> Seq<char>,
    m: Map<Seq<char>, nat>,
) -> bool {
    exists|idxs: Seq<usize>| #[trigger]
        is_sampling(cdf, rng, shots, idxs) && is_only_sampling(cdf, rng, shots, idxs) && m == tally(
            idxs.map_values(f),
        )
}

/// Sampled counts are fixed by the distribution and the generator.
pub proof fn law_sampled_counts_are_fixed(
    cdf: Seq<Complex64>,
    rng: ChaCha8Rng,
    shots: nat,
    f: spec_fn(usize) -> Seq<char>,
    first: Map<Seq<char>, nat>,
    second: Map<Seq<char>, nat>,
)
    requires
        is_sampled_counts(cdf, rng, shots, f, first),
        is_sampled_counts(cdf, rng, shots, f, second),
    ensures
        first == second,
{
    let a = choose|idxs: Seq<usize>| #[trigger]
        is_sampling(cdf, rng, shots, idxs) && is_only_sampling(cdf, rng, shots, idxs) && first
            == tally(idxs.map_values(f));
    let b = choose|idxs: Seq<usize>| #[trigger]
        is_sampling(cdf, rng, shots, idxs) && is_only_sampling(cdf, rng, shots, idxs) && second
            == tally(idxs.map_values(f));
    assert(a == b);
}

/// Every outcome among sampled counts is the one that some place stands for, and came up.
pub proof fn law_sampled_outcomes_stand_for_places(
    cdf: Seq<Complex64>,
    rng: ChaCha8Rng,
    shots: nat,
    f: spec_fn(usize) -> Seq<char>,
    m: Map<Seq<char>, nat>,
    key: Seq<char>,
)
    requires
        is_sampled_counts(cdf, rng, shots, f, m),
        m.dom().contains(key),
    ensures
        m[key] > 0,
        exists|idx: usize| idx < cdf.len() && #[trigger] f(idx) == key,
{
    let idxs = choose|idxs: Seq<usize>| #[trigger]
        is_sampling(cdf, rng, shots, idxs) && is_only_sampling(cdf, rng, shots, idxs) && m == tally(
            idxs.map_values(f),
        );
    let keys = idxs.map_values(f);
    law_tally_counts_occurrences(keys, key);
    lemma_occurrences_bound(keys, key);
    let s = choose|s: int| 0 <= s < keys.len() && keys[s] == key;
    assert(idxs[s] < cdf.len());
    assert(f(idxs[s]) == key);
}

/// No list of qubits and the list of all qubits in descending order give the same counts, from
/// the same generator.
pub proof fn law_no_list_means_all_qubits(
    state: Seq<Complex64>,
    n: usize,
    shots: nat,
    rng: ChaCha8Rng,
    list: &[usize],
    without: Map<Seq<char>, nat>,
    with: Map<Seq<char>, nat>,
)
    requires
        list@ == descending(n),
        is_sampled_counts(
            cumulative(marginal(state, n, chosen_qubits(None, n))),
            rng,
            shots,
            binary_keys(chosen_qubits(None, n).len()),
            without,
        ),
        is_sampled_counts(
            cumulative(marginal(state, n, chosen_qubits(Some(list), n))),
            rng,
            shots,
            binary_keys(chosen_qubits(Some(list), n).len()),
            with,
        ),
    ensures
        without == with,
{
    law_sampled_counts_are_fixed(
        cumulative(marginal(state, n, descending(n))),
        rng,
        shots,
        binary_keys(descending(n).len()),
        without,
        with,
    );
}

/// Every outcome that was sampled from a non-empty list of qubits has one digit for each of
/// them, and was counted.
pub proof fn law_sampled_outcomes_have_a_digit_per_qubit(
    cdf: Seq<Complex64>,
    rng: ChaCha8Rng,
    shots: nat,
    width: nat,
    m: Map<Seq<char>, nat>,
    key: Seq<char>,
)
    requires
        width > 0,
        is_sampled_counts(cdf, rng, shots, binary_keys(width), m),
        m.dom().contains(key),
    ensures
        m[key] > 0,
        key.len() == width,
        forall|j: int| 0 <= j < width ==> #[trigger] key[j] == '0' || key[j] == '1',
{
    law_sampled_outcomes_stand_for_places(cdf, rng, shots, binary_keys(width), m, key);
    let idx = choose|idx: usize| idx < cdf.len() && #[trigger] binary_keys(width)(idx) == key;
    assert(key == binary_text(idx, width));
}

/// Samples `shots` values of the given qubits, or of all qubits in descending order. The
/// first qubit is the leftmost digit of an outcome.
pub fn sample_counts(
    state: &[Complex64],
    n: usize,
    shots: usize,
    rng: &mut ChaCha8Rng,
    qubits: Option<&[usize]>,
) -> (counts: Counts)
    requires
        n < usize::BITS,
        qubits is Some ==> qubits->0@.len() < usize::BITS && qubits_fit(
            qubits->0@,
            usize::BITS as int,
        ),
    ensures
        counts.wf(),
        counts.total() == shots,
        *final(rng) == rng_after(*old(rng), shots as nat),
        is_sampled_counts(
            cumulative(marginal(state@, n, chosen_qubits(qubits, n))),
            *old(rng),
            shots as nat,
            binary_keys(chosen_qubits(qubits, n).len()),
            counts@,
        ),
{
    let all: Vec<usize>;
    let q: &[usize] = match qubits {
        Some(qs) => qs,
        None => {
            all = all_qubits(n);
            all.as_slice()
        },
    };
    let k: usize = q.len();
    let probs: Vec<Complex64> = marginal_probs(state, n, q);
    let cdf: Vec<Complex64> = cumulative_distribution(probs.as_slice());
    proof {
        crate::bits::lemma_dimension_positive(k);
    }
    let ghost start = *rng;
    let pairs: Vec<(usize, usize)> = sample_cdf_counts(cdf.as_slice(), shots, rng);
    let ghost idxs = choose|idxs: Seq<usize>|
        is_sampling(cdf@, start, shots as nat, idxs) && #[trigger] is_tally_of(pairs@, idxs);
    let ghost f = binary_keys(k as nat);
    let to_key = |idx: usize| -> (text: String)
        requires
            k < usize::BITS,
        ensures
            text@ == binary_text(idx, k as nat),
    {
        format_binary(idx, k)
    };
    let counts: Counts = count_outcomes(&pairs, to_key, Ghost(f), Ghost(idxs));
    proof {
        law_sampling_is_unique(cdf@, start, shots as nat, idxs);
    }
    counts
}

} // verus!
