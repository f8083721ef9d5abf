//! Amplitudes, probabilities and measurements of a matrix product state.

use num_complex::Complex64;
use rand_chacha::ChaCha8Rng;
use vstd::prelude::*;

use crate::bits::{bit_set, dimension};
use crate::complex::{
    add_complex, complex_add, complex_conj, complex_join, complex_mul, complex_one, complex_same,
    complex_zero, conj_complex, div_real, join_complex, larger_real, less_real, mul_complex, one,
    real_div, real_less, real_max, real_sqrt, same_complex, sqrt_real, zero,
};
use crate::mps::{same_order, same_settings, Mps};
use crate::mps_tensor::{is_entry, tabulate, Tensor};
use crate::random::{draw_unit, drawn_unit};

verus! {

/// The value of a bit as a number.
pub open spec fn bit_value(set: bool) -> int {
    if set {
        1
    } else {
        0
    }
}

/// The sum over the first `count` values of a left bond of what is carried along a line.
pub open spec fn carry_sum(work: Seq<Complex64>, t: Tensor, state: int, r: int, count: int) -> Complex64
    decreases count,
{
    if count <= 0 {
        complex_zero()
    } else {
        complex_add(
            carry_sum(work, t, state, r, count - 1),
            complex_mul(work[count - 1], t.at(count - 1, state, r)),
        )
    }
}

/// What is carried along a line through the first `count` tensors, for one basis state: a
/// number for each value of the bond behind them.
pub open spec fn carried(
    tensors: Seq<Tensor>,
    order: Seq<usize>,
    basis: usize,
    count: int,
) -> Seq<Complex64>
    decreases count,
{
    if count <= 0 {
        seq![complex_one()]
    } else {
        let work = carried(tensors, order, basis, count - 1);
        let t = tensors[count - 1];
        let state = bit_value(bit_set(basis, order[count - 1]));
        Seq::new(t.right as nat, |r: int| carry_sum(work, t, state, r, t.left as int))
    }
}

/// The amplitude of a basis state.
pub open spec fn amplitude(tensors: Seq<Tensor>, order: Seq<usize>, basis: usize) -> Complex64 {
    carried(tensors, order, basis, tensors.len() as int)[0]
}

/// Carries numbers through one tensor.
fn carry(work: &Vec<Complex64>, t: &Tensor, state: usize) -> (next: Vec<Complex64>)
    requires
        t.wf(),
        work@.len() == t.left,
        state < 2,
    ensures
        next@ == Seq::new(
            t.right as nat,
            |r: int| carry_sum(work@, *t, state as int, r, t.left as int),
        ),
{
    let mut next: Vec<Complex64> = Vec::new();
    let mut r: usize = 0;
    while r < t.right
        invariant
            r <= t.right,
            t.wf(),
            work@.len() == t.left,
            state < 2,
            next@.len() == r,
            forall|k: int|
                0 <= k < r ==> #[trigger] next@[k] == carry_sum(
                    work@,
                    *t,
                    state as int,
                    k,
                    t.left as int,
                ),
        decreases t.right - r,
    {
        let mut sum: Complex64 = zero();
        let mut l: usize = 0;
        while l < t.left
            invariant
                l <= t.left,
                r < t.right,
                t.wf(),
                work@.len() == t.left,
                state < 2,
                sum == carry_sum(work@, *t, state as int, r as int, l as int),
            decreases t.left - l,
        {
            sum = add_complex(sum, mul_complex(work[l], t.get(l, state, r)));
            l = l + 1;
        }
        next.push(sum);
        r = r + 1;
    }
    assert(next@ =~= Seq::new(
        t.right as nat,
        |r: int| carry_sum(work@, *t, state as int, r, t.left as int),
    ));
    next
}

/// The sum over the first `count` pairs of values of the left bond, on top of `start`. Pairs
/// with a factor that is zero are left out.
pub open spec fn contraction_sum(
    t: Tensor,
    env: Seq<Complex64>,
    state: int,
    r: int,
    r_prime: int,
    start: Complex64,
    count: int,
) -> Complex64
    decreases count,
{
    if count <= 0 {
        start
    } else {
        let so_far = contraction_sum(t, env, state, r, r_prime, start, count - 1);
        let l = (count - 1) / t.left as int;
        let l_prime = (count - 1) % t.left as int;
        if complex_same(env[count - 1], complex_zero()) || complex_same(
            t.at(l, state, r),
            complex_zero(),
        ) {
            so_far
        } else {
            complex_add(
                so_far,
                complex_mul(
                    complex_mul(env[count - 1], t.at(l, state, r)),
                    complex_conj(t.at(l_prime, state, r_prime)),
                ),
            )
        }
    }
}

/// The environment at place `k` with the contribution of one state of the qubit added.
pub open spec fn contracted(
    t: Tensor,
    env: Seq<Complex64>,
    state: int,
    k: int,
    start: Complex64,
) -> Complex64 {
    contraction_sum(
        t,
        env,
        state,
        k / t.right as int,
        k % t.right as int,
        start,
        t.left * t.left,
    )
}

/// What the first `count` tensors contribute to the probability that the qubit at a position
/// has a given outcome: a number for each pair of values of the bond behind them.
pub open spec fn environment(
    tensors: Seq<Tensor>,
    position: int,
    outcome: int,
    count: int,
) -> Seq<Complex64>
    decreases count,
{
    if count <= 0 {
        seq![complex_one()]
    } else {
        let env = environment(tensors, position, outcome, count - 1);
        let t = tensors[count - 1];
        Seq::new(
            (t.right * t.right) as nat,
            |k: int|
                if count - 1 == position {
                    contracted(t, env, outcome, k, complex_zero())
                } else {
                    contracted(t, env, 1, k, contracted(t, env, 0, k, complex_zero()))
                },
        )
    }
}

/// The weight of an outcome of the qubit at a position: the real part of what the whole line
/// contributes, and no less than zero.
pub open spec fn outcome_weight(tensors: Seq<Tensor>, position: int, outcome: int) -> Complex64 {
    real_max(
        complex_join(
            environment(tensors, position, outcome, tensors.len() as int)[0],
            complex_zero(),
        ),
        complex_zero(),
    )
}

/// Adds up one entry of an environment.
fn contract_entry(
    t: &Tensor,
    env: &Vec<Complex64>,
    state: usize,
    r: usize,
    r_prime: usize,
    start: Complex64,
) -> (sum: Complex64)
    requires
        t.wf(),
        t.left * t.left <= usize::MAX,
        env@.len() == t.left * t.left,
        state < 2,
        r < t.right,
        r_prime < t.right,
    ensures
        sum == contraction_sum(
            *t,
            env@,
            state as int,
            r as int,
            r_prime as int,
            start,
            t.left * t.left,
        ),
{
    let pairs: usize = t.left * t.left;
    let mut sum: Complex64 = start;
    let mut j: usize = 0;
    while j < pairs
        invariant
            j <= pairs,
            pairs == t.left * t.left,
            t.wf(),
            env@.len() == pairs,
            state < 2,
            r < t.right,
            r_prime < t.right,
            sum == contraction_sum(
                *t,
                env@,
                state as int,
                r as int,
                r_prime as int,
                start,
                j as int,
            ),
        decreases pairs - j,
    {
        let l: usize = j / t.left;
        let l_prime: usize = j % t.left;
        proof {
            assert(j as int / t.left as int <= t.left - 1) by (nonlinear_arith)
                requires
                    0 <= j < t.left * t.left,
                    t.left >= 1,
            ;
        }
        let env_value: Complex64 = env[j];
        let amp: Complex64 = t.get(l, state, r);
        if !same_complex(env_value, zero()) && !same_complex(amp, zero()) {
            let scaled: Complex64 = mul_complex(env_value, amp);
            let bra_amp: Complex64 = conj_complex(t.get(l_prime, state, r_prime));
            sum = add_complex(sum, mul_complex(scaled, bra_amp));
        }
        j = j + 1;
    }
    sum
}

/// Adds what a tensor contributes with its qubit in one state.
pub fn contract_tensor_physical_state(
    tensor: &Tensor,
    env: &Vec<Complex64>,
    next: &mut Vec<Complex64>,
    state: usize,
)
    requires
        tensor.wf(),
        tensor.left * tensor.left <= usize::MAX,
        env@.len() == tensor.left * tensor.left,
        old(next)@.len() == tensor.right * tensor.right,
        state < 2,
    ensures
        final(next)@ == Seq::new(
            old(next)@.len(),
            |k: int| contracted(*tensor, env@, state as int, k, old(next)@[k]),
        ),
{
    let ghost before = next@;
    let mut k: usize = 0;
    while k < next.len()
        invariant
            k <= next@.len(),
            next@.len() == before.len(),
            before.len() == tensor.right * tensor.right,
            tensor.wf(),
            tensor.left * tensor.left <= usize::MAX,
            env@.len() == tensor.left * tensor.left,
            state < 2,
            forall|i: int|
                0 <= i < k ==> #[trigger] next@[i] == contracted(
                    *tensor,
                    env@,
                    state as int,
                    i,
                    before[i],
                ),
            forall|i: int| k <= i < before.len() ==> #[trigger] next@[i] == before[i],
        decreases next@.len() - k,
    {
        proof {
            assert(k as int / tensor.right as int <= tensor.right - 1) by (nonlinear_arith)
                requires
                    0 <= k < tensor.right * tensor.right,
                    tensor.right >= 1,
            ;
        }
        let value: Complex64 = contract_entry(
            tensor,
            env,
            state,
            k / tensor.right,
            k % tensor.right,
            next[k],
        );
        next[k] = value;
        k = k + 1;
    }
    assert(next@ =~= Seq::new(
        before.len(),
        |k: int| contracted(*tensor, env@, state as int, k, before[k]),
    ));
}

/// A number of zeros.
fn zeros(count: usize) -> (r: Vec<Complex64>)
    ensures
        r@ == Seq::new(count as nat, |k: int| complex_zero()),
{
    let mut r: Vec<Complex64> = Vec::new();
    let mut i: usize = 0;
    while i < count
        invariant
            i <= count,
            r@.len() == i,
            forall|k: int| 0 <= k < i ==> #[trigger] r@[k] == complex_zero(),
        decreases count - i,
    {
        r.push(zero());
        i = i + 1;
    }
    assert(r@ =~= Seq::new(count as nat, |k: int| complex_zero()));
    r
}

/// The share of the outcome 1, from the weights of both outcomes.
pub open spec fn share_of_one(weight0: Complex64, weight1: Complex64) -> Complex64 {
    let total = complex_add(weight0, weight1);
    if real_less(complex_zero(), total) {
        let share = real_div(weight1, total);
        if real_less(share, complex_zero()) {
            complex_zero()
        } else if real_less(complex_one(), share) {
            complex_one()
        } else {
            share
        }
    } else {
        complex_zero()
    }
}

/// The share of the outcome 1, from the weights of both outcomes.
pub fn outcome_share(weight0: Complex64, weight1: Complex64) -> (r: Complex64)
    ensures
        r == share_of_one(weight0, weight1),
{
    let total: Complex64 = add_complex(weight0, weight1);
    if less_real(zero(), total) {
        let share: Complex64 = div_real(weight1, total);
        if less_real(share, zero()) {
            zero()
        } else if less_real(one(), share) {
            one()
        } else {
            share
        }
    } else {
        zero()
    }
}

/// The factor by which the amplitudes of a measured outcome grow.
pub open spec fn projection_scale(weight: Complex64) -> Complex64 {
    if real_less(complex_zero(), weight) {
        real_div(complex_one(), real_sqrt(weight))
    } else {
        complex_zero()
    }
}

/// Whether `t` is a tensor whose qubit was found to have an outcome.
pub open spec fn is_projected(before: Tensor, outcome: int, weight: Complex64, t: Tensor) -> bool {
    &&& t.wf()
    &&& t.left == before.left && t.right == before.right
    &&& forall|l: usize, s: usize, r: usize|
        #![trigger t.at(l as int, s as int, r as int)]
        is_entry(t.left as int, t.right as int, l as int, s as int, r as int) ==> t.at(
            l as int,
            s as int,
            r as int,
        ) == (if s == outcome {
            complex_mul(before.at(l as int, s as int, r as int), projection_scale(weight))
        } else {
            complex_zero()
        })
}

/// Whether a measurement of a qubit gives 1.
pub open spec fn finds_one(m: Mps, qubit: int, rng: ChaCha8Rng) -> bool {
    let position = m.logical_to_position@[qubit] as int;
    real_less(
        drawn_unit(rng).0,
        share_of_one(
            outcome_weight(m.tensors@, position, 0),
            outcome_weight(m.tensors@, position, 1),
        ),
    )
}

/// Whether the qubit at a position has been projected to an outcome with a weight.
pub open spec fn projection_step(
    before: Mps,
    position: int,
    outcome: int,
    weight: Complex64,
    after: Mps,
) -> bool {
    &&& same_settings(before, after)
    &&& same_order(before, after)
    &&& after.counters == before.counters
    &&& after.tensors@ == before.tensors@.update(position, after.tensors@[position])
    &&& is_projected(before.tensors@[position], outcome, weight, after.tensors@[position])
}

/// Whether a measurement of a qubit leads from one state to another.
pub open spec fn measurement_step(before: Mps, qubit: int, rng: ChaCha8Rng, after: Mps) -> bool {
    let position = before.logical_to_position@[qubit] as int;
    let outcome = bit_value(finds_one(before, qubit, rng));
    projection_step(
        before,
        position,
        outcome,
        outcome_weight(before.tensors@, position, outcome),
        after,
    )
}

impl Mps {
    /// The amplitudes of all basis states.
    pub fn to_statevector(&self) -> (state: Vec<Complex64>)
        requires
            self.wf(),
            self.tensors@.len() < usize::BITS,
        ensures
            state@ == Seq::new(
                dimension(self.tensors@.len() as usize) as nat,
                |basis: int|
                    amplitude(self.tensors@, self.position_to_logical@, basis as usize),
            ),
    {
        let n: usize = self.tensors.len();
        let dim: usize = 1usize << n;
        let mut state: Vec<Complex64> = Vec::new();
        let mut basis: usize = 0;
        while basis < dim
            invariant
                basis <= dim,
                dim == dimension(n),
                n == self.tensors@.len(),
                n < usize::BITS,
                self.wf(),
                state@.len() == basis,
                forall|b: int|
                    0 <= b < basis ==> #[trigger] state@[b] == amplitude(
                        self.tensors@,
                        self.position_to_logical@,
                        b as usize,
                    ),
            decreases dim - basis,
        {
            let mut work: Vec<Complex64> = Vec::new();
            work.push(one());
            assert(work@ =~= seq![complex_one()]);
            let mut position: usize = 0;
            while position < n
                invariant
                    position <= n,
                    n == self.tensors@.len(),
                    n < usize::BITS,
                    self.wf(),
                    work@ == carried(
                        self.tensors@,
                        self.position_to_logical@,
                        basis,
                        position as int,
                    ),
                    position < n ==> work@.len() == self.tensors@[position as int].left,
                    position == n ==> work@.len() == 1,
                decreases n - position,
            {
                let logical_qubit: usize = self.position_to_logical[position];
                assert(logical_qubit < n);
                let bit: usize = if basis & (1usize << logical_qubit) != 0 {
                    1
                } else {
                    0
                };
                proof {
                    if position + 1 < n {
                        assert(self.tensors@[position as int].right == self.tensors@[position
                            + 1].left);
                    }
                }
                let next: Vec<Complex64> = carry(&work, &self.tensors[position], bit);
                assert(next@ =~= carried(
                    self.tensors@,
                    self.position_to_logical@,
                    basis,
                    position + 1,
                ));
                work = next;
                position = position + 1;
            }
            state.push(work[0]);
            basis = basis + 1;
        }
        assert(state@ =~= Seq::new(
            dimension(self.tensors@.len() as usize) as nat,
            |basis: int| amplitude(self.tensors@, self.position_to_logical@, basis as usize),
        ));
        state
    }

    /// The weight of an outcome of the qubit at a position.
    pub fn qubit_outcome_probability(&self, position: usize, outcome: usize) -> (weight: Complex64)
        requires
            self.wf(),
            position < self.tensors@.len(),
            outcome < 2,
        ensures
            weight == outcome_weight(self.tensors@, position as int, outcome as int),
    {
        let mut env: Vec<Complex64> = Vec::new();
        env.push(one());
        assert(env@ =~= seq![complex_one()]);
        let n: usize = self.tensors.len();
        let mut idx: usize = 0;
        assert(1usize * 1usize == 1) by (nonlinear_arith);
        while idx < n
            invariant
                idx <= n,
                n == self.tensors@.len(),
                self.wf(),
                outcome < 2,
                env@ == environment(
                    self.tensors@,
                    position as int,
                    outcome as int,
                    idx as int,
                ),
                idx < n ==> env@.len() == self.tensors@[idx as int].left
                    * self.tensors@[idx as int].left,
                idx == n ==> env@.len() == 1,
                1usize * 1usize == 1,
            decreases n - idx,
        {
            let tensor: &Tensor = &self.tensors[idx];
            let ghost t = self.tensors@[idx as int];
            let mut next: Vec<Complex64> = zeros(tensor.right * tensor.right);
            if idx == position {
                contract_tensor_physical_state(tensor, &env, &mut next, outcome);
            } else {
                contract_tensor_physical_state(tensor, &env, &mut next, 0);
                contract_tensor_physical_state(tensor, &env, &mut next, 1);
            }
            proof {
                assert(next@ =~= environment(
                    self.tensors@,
                    position as int,
                    outcome as int,
                    idx + 1,
                ));
                if idx + 1 < n {
                    assert(t.right == self.tensors@[idx + 1].left);
                }
            }
            env = next;
            idx = idx + 1;
        }
        larger_real(join_complex(env[0], zero()), zero())
    }

    /// Measures a qubit.
    pub fn measure(&mut self, qubit: usize, rng: &mut ChaCha8Rng) -> (outcome: usize)
        requires
            old(self).wf(),
            qubit < old(self).tensors@.len(),
        ensures
            final(self).wf(),
            *final(rng) == drawn_unit(*old(rng)).1,
            outcome == bit_value(finds_one(*old(self), qubit as int, *old(rng))),
            measurement_step(*old(self), qubit as int, *old(rng), *final(self)),
    {
        let position: usize = self.logical_to_position[qubit];
        let p0_raw: Complex64 = self.qubit_outcome_probability(position, 0);
        let p1_raw: Complex64 = self.qubit_outcome_probability(position, 1);
        let p1: Complex64 = outcome_share(p0_raw, p1_raw);
        let outcome: usize = if less_real(draw_unit(rng), p1) {
            1
        } else {
            0
        };
        let raw_prob: Complex64 = if outcome == 1 {
            p1_raw
        } else {
            p0_raw
        };
        self.project_qubit(position, outcome, raw_prob);
        outcome
    }

    /// Projects the qubit at a position to an outcome with a given weight.
    pub fn project_qubit(&mut self, position: usize, outcome: usize, prob: Complex64)
        requires
            old(self).wf(),
            position < old(self).tensors@.len(),
            outcome < 2,
        ensures
            final(self).wf(),
            projection_step(*old(self), position as int, outcome as int, prob, *final(self)),
    {
        let ghost before = *self;
        let scale: Complex64 = if less_real(zero(), prob) {
            div_real(one(), sqrt_real(prob))
        } else {
            zero()
        };
        let new: Tensor = {
            let tensor: &Tensor = &self.tensors[position];
            assert(tensor.data.len() <= usize::MAX);
            let f = |l: usize, s: usize, r: usize| -> (value: Complex64)
                requires
                    is_entry(
                        tensor.left as int,
                        tensor.right as int,
                        l as int,
                        s as int,
                        r as int,
                    ),
                ensures
                    value == (if s == outcome {
                        complex_mul(tensor.at(l as int, s as int, r as int), scale)
                    } else {
                        complex_zero()
                    }),
                {
                    if s == outcome {
                        mul_complex(tensor.get(l, s, r), scale)
                    } else {
                        zero()
                    }
                };
            tabulate(tensor.left, tensor.right, f)
        };
        self.tensors[position] = new;
        proof {
            assert(self.tensors@ =~= before.tensors@.update(position as int, new));
            assert forall|i: int, j: int|
                0 <= i && j == i + 1 && j < self.tensors@.len() implies (
            #[trigger] self.tensors@[i]).right == (#[trigger] self.tensors@[j]).left by {
                assert(before.tensors@[i].right == before.tensors@[j].left);
            }
        }
    }
}

/// After a measurement the amplitudes of the outcome that was not found are zero.
pub proof fn law_measurement_removes_other_outcome(
    before: Mps,
    qubit: int,
    rng: ChaCha8Rng,
    after: Mps,
    l: usize,
    r: usize,
)
    requires
        measurement_step(before, qubit, rng, after),
        ({
            let t = after.tensors@[before.logical_to_position@[qubit] as int];
            l < t.left && r < t.right
        }),
    ensures
        ({
            let t = after.tensors@[before.logical_to_position@[qubit] as int];
            t.at(l as int, bit_value(!finds_one(before, qubit, rng)), r as int) == complex_zero()
        }),
{
    let t = after.tensors@[before.logical_to_position@[qubit] as int];
    let other = bit_value(!finds_one(before, qubit, rng)) as usize;
    assert(is_entry(t.left as int, t.right as int, l as int, other as int, r as int));
    assert(t.at(l as int, other as int, r as int) == complex_zero());
}

} // verus!
