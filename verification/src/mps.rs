//! Matrix product states.
//!
//! Each qubit has a tensor, and the tensors stand in a line. Neighbours share a bond. The
//! order of the qubits along the line may change; the state keeps track of it.

use num_complex::Complex64;
use vstd::arithmetic::power2::{lemma_pow2_unfold, pow2};
use vstd::prelude::*;

use crate::bits::saturating_product;
use crate::complex::{
    add_complex, complex_add, complex_mul, complex_one, complex_zero, mul_complex, one, zero,
};
use crate::engine::Matrix2;
use crate::gate_error::GateError;
use crate::mps_counters::{no_work, MpsProfileCounters};
use crate::mps_kernel::{
    classify_diagonal_2q, is_diagonal, is_kernel_of, kernel_wf, Matrix4, MpsTwoQKernel,
    MpsTwoQKernelMode,
};
use crate::mps_pair::{is_bond, is_product, is_replacement, update_pair, updates_to, SplitPair};
use crate::mps_routing::{are_inverse, capped, MpsRoutingMode};
use crate::mps_tensor::{is_entry, tabulate, Tensor};

verus! {

/// How gates are applied.
#[derive(Clone, Copy, Debug, PartialEq, Eq, Structural)]
pub struct MpsConfig {
    pub routing_mode: MpsRoutingMode,
    pub fast_kernel_mode: MpsTwoQKernelMode,
    /// Up to this many shots, permuting kernels are used on pairs without bonds.
    pub product_permutation_fast_max_shots: usize,
    /// From this much work on, dense kernels are used on pairs without bonds.
    pub dense_fast_min_work_items: usize,
    /// How many gates a route is chosen by.
    pub lookahead_depth: usize,
}

/// A matrix product state.
pub struct Mps {
    pub tensors: Vec<Tensor>,
    pub logical_to_position: Vec<usize>,
    pub position_to_logical: Vec<usize>,
    pub max_bond_dimension: Option<usize>,
    pub truncation_threshold: Complex64,
    pub total_shots: usize,
    pub config: MpsConfig,
    pub counters: MpsProfileCounters,
    /// The time that decompositions have taken, in nanoseconds.
    pub svd_nanos: u64,
}

/// Whether tensors form a line: neighbours share a bond of an allowed dimension, the bonds at
/// the ends have dimension one, and no bond is larger than two to the power of the number of
/// qubits on either of its sides.
pub open spec fn is_line(tensors: Seq<Tensor>, max_bond: Option<usize>) -> bool {
    &&& forall|i: int|
        0 <= i < tensors.len() ==> (#[trigger] tensors[i]).wf() && is_bond(
            tensors[i].left,
            max_bond,
        ) && is_bond(tensors[i].right, max_bond)
    &&& forall|i: int, j: int|
        0 <= i && j == i + 1 && j < tensors.len() ==> (#[trigger] tensors[i]).right == (
        #[trigger] tensors[j]).left
    &&& tensors.len() > 0 ==> tensors[0].left == 1 && tensors[tensors.len() - 1].right == 1
    &&& forall|i: int|
        0 <= i < tensors.len() ==> (#[trigger] tensors[i]).left <= pow2(i as nat)
            && tensors[i].right <= pow2((tensors.len() - 1 - i) as nat)
}

/// The line in which the tensors at `q` and `q + 1` were replaced.
pub open spec fn pair_replaced(tensors: Seq<Tensor>, q: int, left: Tensor, right: Tensor) -> Seq<
    Tensor,
> {
    tensors.update(q, left).update(q + 1, right)
}

proof fn lemma_pair_replaced(
    tensors: Seq<Tensor>,
    max_bond: Option<usize>,
    q: int,
    left: Tensor,
    right: Tensor,
)
    requires
        is_line(tensors, max_bond),
        0 <= q,
        q + 1 < tensors.len(),
        is_replacement(tensors[q].left, tensors[q + 1].right, max_bond, left, right),
    ensures
        is_line(pair_replaced(tensors, q, left, right), max_bond),
{
    let after = pair_replaced(tensors, q, left, right);
    let n = tensors.len();
    assert(after[q] == left && after[q + 1] == right);
    lemma_pow2_unfold((q + 1) as nat);
    lemma_pow2_unfold((n - 1 - q) as nat);
    assert(tensors[q].left <= pow2(q as nat));
    assert(tensors[q + 1].right <= pow2((n - 1 - (q + 1)) as nat));
    assert forall|i: int, j: int| 0 <= i && j == i + 1 && j < after.len() implies (
    #[trigger] after[i]).right == (#[trigger] after[j]).left by {
        assert(tensors[i].right == tensors[j].left);
    }
    assert forall|i: int| 0 <= i < after.len() implies (#[trigger] after[i]).left <= pow2(i as nat)
        && after[i].right <= pow2((after.len() - 1 - i) as nat) by {
        assert(tensors[i].left <= pow2(i as nat));
        assert(tensors[i].right <= pow2((n - 1 - i) as nat));
    }
    assert forall|i: int| 0 <= i < after.len() implies (#[trigger] after[i]).wf() && is_bond(
        after[i].left,
        max_bond,
    ) && is_bond(after[i].right, max_bond) by {
        assert(tensors[i].wf());
    }
}

/// Whether `t` is a tensor after a one-qubit gate.
pub open spec fn is_rotated(before: Tensor, mat: Matrix2, t: Tensor) -> bool {
    &&& t.wf()
    &&& t.left == before.left && t.right == before.right
    &&& forall|l: usize, s: usize, r: usize|
        #![trigger t.at(l as int, s as int, r as int)]
        is_entry(t.left as int, t.right as int, l as int, s as int, r as int) ==> t.at(
            l as int,
            s as int,
            r as int,
        ) == complex_add(
            complex_add(
                complex_zero(),
                complex_mul(mat[s as int][0], before.at(l as int, 0, r as int)),
            ),
            complex_mul(mat[s as int][1], before.at(l as int, 1, r as int)),
        )
}

/// Whether `t` is the tensor of a qubit that is zero.
pub open spec fn is_ground(t: Tensor) -> bool {
    &&& t.left == 1 && t.right == 1
    &&& t.data@ == seq![complex_one(), complex_zero()]
}

/// Whether two states have the same limits and settings.
pub open spec fn same_settings(a: Mps, b: Mps) -> bool {
    &&& a.max_bond_dimension == b.max_bond_dimension
    &&& a.truncation_threshold == b.truncation_threshold
    &&& a.total_shots == b.total_shots
    &&& a.config == b.config
}

/// Whether two states have the qubits in the same order.
pub open spec fn same_order(a: Mps, b: Mps) -> bool {
    &&& a.logical_to_position@ == b.logical_to_position@
    &&& a.position_to_logical@ == b.position_to_logical@
}

/// Whether pairs without bonds have too many shots for permuting kernels.
pub open spec fn has_many_shots(m: Mps) -> bool {
    m.total_shots > m.config.product_permutation_fast_max_shots
}

/// The work that a pair takes.
pub open spec fn work_items(left: Tensor, right: Tensor) -> usize {
    capped((capped((left.left * left.right) as nat) * right.right) as nat)
}

/// Whether a kernel is worth its while on the pair at `q`.
pub open spec fn is_worth(m: Mps, q: int, kernel: MpsTwoQKernel) -> bool {
    let product = is_product(m.tensors@[q], m.tensors@[q + 1]);
    match kernel {
        MpsTwoQKernel::Diagonal(_) => true,
        MpsTwoQKernel::Dense => !product || work_items(m.tensors@[q], m.tensors@[q + 1])
            >= m.config.dense_fast_min_work_items,
        MpsTwoQKernel::Permutation(_) => !product || !has_many_shots(m),
    }
}

/// Whether a gate on the pair at `q` is applied by `kernel`, or by its matrix where there is
/// none, and whether it counts as one for which no kernel was chosen.
pub open spec fn is_choice(
    m: Mps,
    q: int,
    mat: Matrix4,
    hint: Option<MpsTwoQKernel>,
    kernel: Option<MpsTwoQKernel>,
    skipped: bool,
) -> bool {
    let product = is_product(m.tensors@[q], m.tensors@[q + 1]);
    match m.config.fast_kernel_mode {
        MpsTwoQKernelMode::Off => kernel is None && !skipped,
        MpsTwoQKernelMode::Force => !skipped && kernel is Some && match hint {
            Some(k) => kernel->0 == k,
            None => is_kernel_of(mat, kernel->0),
        },
        MpsTwoQKernelMode::Auto => match hint {
            Some(k) => if (has_many_shots(m) && !(k is Diagonal) && product) || !is_worth(m, q, k) {
                kernel is None && skipped
            } else {
                kernel == Some(k) && !skipped
            },
            None => if has_many_shots(m) && !is_diagonal(mat) && product {
                kernel is None && skipped
            } else {
                exists|k: MpsTwoQKernel| #[trigger]
                    is_kernel_of(mat, k) && if is_worth(m, q, k) {
                        kernel == Some(k) && !skipped
                    } else {
                        kernel is None && skipped
                    }
            },
        },
    }
}

/// The counters when a gate is about to be applied to neighbours.
pub open spec fn counters_chosen(
    c: MpsProfileCounters,
    kernel: Option<MpsTwoQKernel>,
    skipped: bool,
) -> MpsProfileCounters {
    let counted = if skipped {
        c.after_adjacent().after_auto_skip()
    } else {
        c.after_adjacent()
    };
    match kernel {
        Some(k) => counted.after_fast(k),
        None => counted,
    }
}

/// Whether `after` is a state after the pair at `q` was replaced by the outcome of a gate. An
/// error leaves the tensors alone.
pub open spec fn takes_pair(
    before: Mps,
    q: int,
    kernel: Option<MpsTwoQKernel>,
    skipped: bool,
    pair: Result<SplitPair, GateError>,
    after: Mps,
    res: Result<(), GateError>,
) -> bool {
    let counted = counters_chosen(before.counters, kernel, skipped);
    match pair {
        Ok((left, right, split)) => {
            &&& res is Ok
            &&& after.tensors@ == pair_replaced(before.tensors@, q, left, right)
            &&& after.counters == if split {
                counted.after_split()
            } else {
                counted.after_svd(left.right)
            }
        },
        Err(e) => {
            &&& res == Err::<(), GateError>(e)
            &&& after.tensors@ == before.tensors@
            &&& after.counters == counted
        },
    }
}

/// Whether a gate on the neighbours at `q` can lead from one state to another.
pub open spec fn adjacent_step(
    before: Mps,
    q: int,
    mat: Matrix4,
    hint: Option<MpsTwoQKernel>,
    after: Mps,
    res: Result<(), GateError>,
) -> bool {
    &&& same_settings(before, after)
    &&& same_order(before, after)
    &&& exists|
        kernel: Option<MpsTwoQKernel>,
        skipped: bool,
        pair: Result<SplitPair, GateError>,
    | #[trigger]
        takes_pair(before, q, kernel, skipped, pair, after, res) && is_choice(
            before,
            q,
            mat,
            hint,
            kernel,
            skipped,
        ) && updates_to(
            before.tensors@[q],
            before.tensors@[q + 1],
            mat,
            kernel,
            before.truncation_threshold,
            before.max_bond_dimension,
            pair,
        )
}

impl Mps {
    /// The tensors form a line, and the order of the qubits is known both ways.
    pub open spec fn wf(&self) -> bool {
        &&& is_line(self.tensors@, self.max_bond_dimension)
        &&& are_inverse(self.logical_to_position@, self.position_to_logical@)
        &&& self.logical_to_position@.len() == self.tensors@.len()
    }

    /// The state in which all qubits are zero.
    pub fn new(
        num_qubits: usize,
        max_bond_dimension: Option<usize>,
        truncation_threshold: Complex64,
        total_shots: usize,
        config: MpsConfig,
    ) -> (r: Mps)
        ensures
            r.wf(),
            is_ground_state(r, num_qubits, max_bond_dimension, truncation_threshold, total_shots, config),
    {
        let mut tensors: Vec<Tensor> = Vec::new();
        let mut logical_to_position: Vec<usize> = Vec::new();
        let mut position_to_logical: Vec<usize> = Vec::new();
        let mut i: usize = 0;
        assert(1usize * 2 * 1usize == 2) by (nonlinear_arith);
        while i < num_qubits
            invariant
                i <= num_qubits,
                tensors@.len() == i,
                logical_to_position@.len() == i,
                position_to_logical@.len() == i,
                1usize * 2 * 1usize == 2,
                forall|j: int|
                    0 <= j < i ==> is_ground(#[trigger] tensors@[j]) && tensors@[j].wf(),
                forall|j: int| 0 <= j < i ==> #[trigger] logical_to_position@[j] == j,
                forall|j: int| 0 <= j < i ==> #[trigger] position_to_logical@[j] == j,
            decreases num_qubits - i,
        {
            let mut data: Vec<Complex64> = Vec::new();
            data.push(one());
            data.push(zero());
            assert(data@ =~= seq![complex_one(), complex_zero()]);
            tensors.push(Tensor { left: 1, right: 1, data });
            logical_to_position.push(i);
            position_to_logical.push(i);
            i = i + 1;
        }
        let total_shots: usize = if total_shots >= 1 {
            total_shots
        } else {
            1
        };
        proof {
            assert forall|k: int| 0 <= k implies 1 <= #[trigger] pow2(k as nat) by {
                vstd::arithmetic::power2::lemma_pow2_pos(k as nat);
            }
            assert(1usize * 1usize == 1) by (nonlinear_arith);
        }
        Mps {
            tensors,
            logical_to_position,
            position_to_logical,
            max_bond_dimension,
            truncation_threshold,
            total_shots,
            config,
            counters: MpsProfileCounters::default(),
            svd_nanos: 0,
        }
    }

    /// Applies a one-qubit gate.
    pub fn apply_1q(&mut self, qubit: usize, mat: &Matrix2)
        requires
            old(self).wf(),
            qubit < old(self).tensors@.len(),
        ensures
            final(self).wf(),
            one_qubit_step(*old(self), qubit as int, *mat, *final(self)),
    {
        let position: usize = self.logical_to_position[qubit];
        let ghost before = *self;
        let new: Tensor = rotate(&self.tensors[position], mat);
        self.tensors[position] = new;
        proof {
            assert(self.tensors@ =~= before.tensors@.update(position as int, new));
            assert forall|i: int, j: int|
                0 <= i && j == i + 1 && j < self.tensors@.len() implies (
            #[trigger] self.tensors@[i]).right == (#[trigger] self.tensors@[j]).left by {
                assert(before.tensors@[i].right == before.tensors@[j].left);
            }
        }
    }

    /// Whether the tensors at `q` and `q + 1` have no bonds but the one of dimension one
    /// between them.
    pub fn is_product_pair(&self, q: usize) -> (r: bool)
        requires
            self.wf(),
            q + 1 < self.tensors@.len(),
        ensures
            r == is_product(self.tensors@[q as int], self.tensors@[q + 1]),
    {
        assert(self.tensors.len() <= usize::MAX);
        self.tensors[q].left == 1 && self.tensors[q].right == 1 && self.tensors[q + 1].right == 1
    }

    /// Whether a kernel is left out on a pair without bonds because there are many shots.
    pub fn should_skip_high_shot_product_pair_with_kernel(&self, q: usize, kernel: MpsTwoQKernel) -> (r:
        bool)
        requires
            self.wf(),
            q + 1 < self.tensors@.len(),
        ensures
            r == (has_many_shots(*self) && !(kernel is Diagonal) && is_product(
                self.tensors@[q as int],
                self.tensors@[q + 1],
            )),
    {
        if self.total_shots <= self.config.product_permutation_fast_max_shots {
            return false;
        }
        match kernel {
            MpsTwoQKernel::Diagonal(_) => false,
            _ => self.is_product_pair(q),
        }
    }

    /// Whether a gate is applied by its matrix on a pair without bonds because there are many
    /// shots.
    pub fn should_skip_high_shot_product_pair_without_classification(
        &self,
        q: usize,
        mat: &Matrix4,
    ) -> (r: bool)
        requires
            self.wf(),
            q + 1 < self.tensors@.len(),
        ensures
            r == (has_many_shots(*self) && !is_diagonal(*mat) && is_product(
                self.tensors@[q as int],
                self.tensors@[q + 1],
            )),
    {
        if self.total_shots <= self.config.product_permutation_fast_max_shots {
            return false;
        }
        match classify_diagonal_2q(mat) {
            Some(_) => false,
            None => self.is_product_pair(q),
        }
    }

    /// Whether a kernel is worth its while on the pair at `q`.
    pub fn should_use_adjacent_2q_fast(&self, q: usize, kernel: MpsTwoQKernel) -> (r: bool)
        requires
            self.wf(),
            q + 1 < self.tensors@.len(),
        ensures
            r == is_worth(*self, q as int, kernel),
    {
        assert(self.tensors.len() <= usize::MAX);
        let product: bool = self.is_product_pair(q);
        let work: usize = saturating_product(
            saturating_product(self.tensors[q].left, self.tensors[q].right),
            self.tensors[q + 1].right,
        );
        match kernel {
            MpsTwoQKernel::Diagonal(_) => true,
            MpsTwoQKernel::Dense => !product || work >= self.config.dense_fast_min_work_items,
            MpsTwoQKernel::Permutation(_) => !product || self.total_shots
                <= self.config.product_permutation_fast_max_shots,
        }
    }

    /// Chooses how a gate is applied to the pair at `q`.
    pub fn choose_kernel(&self, q: usize, mat: &Matrix4, kernel_hint: Option<MpsTwoQKernel>) -> (r: (
        Option<MpsTwoQKernel>,
        bool,
    ))
        requires
            self.wf(),
            q + 1 < self.tensors@.len(),
            kernel_hint matches Some(k) ==> kernel_wf(k),
        ensures
            is_choice(*self, q as int, *mat, kernel_hint, r.0, r.1),
            r.0 matches Some(k) ==> kernel_wf(k),
    {
        match self.config.fast_kernel_mode {
            MpsTwoQKernelMode::Off => (None, false),
            MpsTwoQKernelMode::Force => match kernel_hint {
                Some(kernel) => (Some(kernel), false),
                None => (Some(MpsTwoQKernel::classify(mat)), false),
            },
            MpsTwoQKernelMode::Auto => match kernel_hint {
                Some(kernel) => {
                    if self.should_skip_high_shot_product_pair_with_kernel(q, kernel)
                        || !self.should_use_adjacent_2q_fast(q, kernel) {
                        (None, true)
                    } else {
                        (Some(kernel), false)
                    }
                },
                None => {
                    if self.should_skip_high_shot_product_pair_without_classification(q, mat) {
                        return (None, true);
                    }
                    let kernel: MpsTwoQKernel = MpsTwoQKernel::classify(mat);
                    assert(is_kernel_of(*mat, kernel));
                    if self.should_use_adjacent_2q_fast(q, kernel) {
                        (Some(kernel), false)
                    } else {
                        (None, true)
                    }
                },
            },
        }
    }

    /// Applies a gate to the neighbours at `q` and `q + 1`.
    pub fn apply_adjacent_2q(
        &mut self,
        q: usize,
        mat: &Matrix4,
        kernel_hint: Option<MpsTwoQKernel>,
    ) -> (res: Result<(), GateError>)
        requires
            old(self).wf(),
            q + 1 < old(self).tensors@.len(),
            kernel_hint matches Some(k) ==> kernel_wf(k),
        ensures
            final(self).wf(),
            adjacent_step(*old(self), q as int, *mat, kernel_hint, *final(self), res),
    {
        assert(self.tensors.len() <= usize::MAX);
        let ghost before = *self;
        let (kernel, skipped): (Option<MpsTwoQKernel>, bool) = self.choose_kernel(
            q,
            mat,
            kernel_hint,
        );
        self.counters.note_adjacent();
        if skipped {
            self.counters.note_auto_skip();
        }
        match kernel {
            Some(k) => {
                self.counters.note_fast(k);
            },
            None => {},
        }
        assert(before.tensors@[q as int].right == before.tensors@[q + 1].left);
        let mut svd_nanos: u64 = self.svd_nanos;
        let pair: Result<SplitPair, GateError> = update_pair(
            &self.tensors[q],
            &self.tensors[q + 1],
            mat,
            kernel,
            self.truncation_threshold,
            self.max_bond_dimension,
            &mut svd_nanos,
        );
        self.svd_nanos = svd_nanos;
        let ghost outcome = pair;
        match pair {
            Ok((left, right, split)) => {
                if split {
                    self.counters.note_split();
                } else {
                    self.counters.note_svd(left.right);
                }
                proof {
                    lemma_pair_replaced(
                        before.tensors@,
                        before.max_bond_dimension,
                        q as int,
                        left,
                        right,
                    );
                }
                self.tensors[q] = left;
                self.tensors[q + 1] = right;
                assert(takes_pair(
                    before,
                    q as int,
                    kernel,
                    skipped,
                    outcome,
                    *self,
                    Ok::<(), GateError>(()),
                ));
                Ok(())
            },
            Err(e) => {
                assert(takes_pair(
                    before,
                    q as int,
                    kernel,
                    skipped,
                    outcome,
                    *self,
                    Err::<(), GateError>(e),
                ));
                Err(e)
            },
        }
    }
}

/// Whether a state is that of `n` qubits that are all zero, in their natural order.
pub open spec fn is_ground_state(
    m: Mps,
    n: usize,
    max_bond: Option<usize>,
    threshold: Complex64,
    shots: usize,
    config: MpsConfig,
) -> bool {
    &&& m.tensors@.len() == n
    &&& forall|i: int| 0 <= i < n ==> is_ground(#[trigger] m.tensors@[i])
    &&& forall|i: int| 0 <= i < n ==> #[trigger] m.logical_to_position@[i] == i
    &&& forall|i: int| 0 <= i < n ==> #[trigger] m.position_to_logical@[i] == i
    &&& m.max_bond_dimension == max_bond
    &&& m.truncation_threshold == threshold
    &&& m.total_shots == if shots >= 1 {
        shots
    } else {
        1
    }
    &&& m.config == config
    &&& m.counters == no_work()
    &&& m.svd_nanos == 0
}

/// Whether a one-qubit gate leads from one state to another.
pub open spec fn one_qubit_step(before: Mps, qubit: int, mat: Matrix2, after: Mps) -> bool {
    let position = before.logical_to_position@[qubit] as int;
    &&& same_settings(before, after)
    &&& same_order(before, after)
    &&& after.counters == before.counters
    &&& after.tensors@ == before.tensors@.update(position, after.tensors@[position])
    &&& is_rotated(before.tensors@[position], mat, after.tensors@[position])
}

/// Applies a one-qubit gate to a tensor.
pub fn rotate(old_tensor: &Tensor, mat: &Matrix2) -> (t: Tensor)
    requires
        old_tensor.wf(),
    ensures
        is_rotated(*old_tensor, *mat, t),
{
    assert(old_tensor.data.len() <= usize::MAX);
    let f = |l: usize, s: usize, r: usize| -> (value: Complex64)
        requires
            is_entry(
                old_tensor.left as int,
                old_tensor.right as int,
                l as int,
                s as int,
                r as int,
            ),
        ensures
            value == complex_add(
                complex_add(
                    complex_zero(),
                    complex_mul(mat[s as int][0], old_tensor.at(l as int, 0, r as int)),
                ),
                complex_mul(mat[s as int][1], old_tensor.at(l as int, 1, r as int)),
            ),
        {
            let first: Complex64 = add_complex(
                zero(),
                mul_complex(mat[s][0], old_tensor.get(l, 0, r)),
            );
            add_complex(first, mul_complex(mat[s][1], old_tensor.get(l, 1, r)))
        };
    tabulate(old_tensor.left, old_tensor.right, f)
}

} // verus!
