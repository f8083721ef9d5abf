//! What two-qubit gates do to the qubits of a matrix product state.
//!
//! Two tensors that share a bond hold four amplitudes for each value of their outer bonds. A gate
//! on two qubits makes of them four others, which are then split again. The laws say which: the
//! first of the two qubits is the higher bit of the rows and columns of its matrix, wherever the
//! two qubits stand.

use num_complex::Complex64;
use vstd::prelude::*;

use crate::clifford_laws::flipped_by;
use crate::complex::{
    complex_add, complex_mul, complex_neg, complex_of, complex_one, complex_zero, real_div,
    real_less, real_sqrt,
};
use crate::controlled_laws::{is_plain, is_reading};
use crate::engine::{one_qubit_applied, Matrix2};
use crate::gate_error::GateError;
use crate::gate_laws::{is_plain_form, named_controls, named_target};
use crate::gate_matrix::{is_fixed_gate, is_matrix_of, single_gate_qubit};
use crate::gates::{
    controlled_entry, is_controlled_4, is_rxx_of, is_rzz_of, is_swap_4, LinkGates,
};
use crate::instruction::{Instruction, Kind};
use crate::mps::{
    adjacent_step, is_choice, one_qubit_step, pair_replaced, same_settings, takes_pair, Mps,
};
use crate::mps_gates::{
    counters_routed, distance, ends_up, gate_and_back, higher_of, is_oriented, lazy_route,
    lazy_step, lower_of, meeting_point, one_swap, physical_swap, restoring_route, restoring_step,
    swaps_down, swaps_up, with_counters,
};
use crate::mps_kernel::{
    is_kernel_of, is_negligible, is_only_entry, is_swap_kernel, reversed_index, Matrix4,
    MpsTwoQKernel,
};
use crate::mps_pair::{
    direct_output, finishes, gate_amplitude, is_product, is_theta, merges_to, pair_amplitude,
    pair_input, splits_into_tensors, updates_to, SplitPair,
};
use crate::mps_routing::{
    chosen_direction, neighbours_swapped, swaps_needed, MpsRoutingMode, RoutingDirection,
};
use crate::mps_run::{
    acts_to, is_hint_of, is_mps_action_of, is_pair_matrix, mps_steps_to, MpsAction, MpsPoint,
};
use crate::mps_state::{
    bit_value, finds_one, measurement_step, outcome_weight, share_of_one,
};
use crate::mps_tensor::{is_entry, Tensor};
use crate::product_laws::lemma_applied_to_one_qubit;
use crate::random::drawn_unit;
use crate::statevector::is_target_matrix;

verus! {

/// The row or column of a gate that belongs to the values `s0` and `s1` of a left and a right
/// qubit, where its first qubit is the left one or the right one.
pub open spec fn own_index(first_left: bool, s0: int, s1: int) -> int {
    if first_left {
        2 * s0 + s1
    } else {
        2 * s1 + s0
    }
}

/// The entry of a gate that leads from the values of two neighbours in `c` to those in `p`; the
/// left neighbour is the higher bit of both numbers.
pub open spec fn own_entry(gate: Matrix4, first_left: bool, p: int, c: int) -> Complex64 {
    gate[own_index(first_left, p / 2, p % 2)][own_index(first_left, c / 2, c % 2)]
}

/// Whether an entry of a gate may be left out.
pub open spec fn may_be_left_out(entry: Complex64) -> bool {
    entry == complex_zero() || is_negligible(entry, 14)
}

/// Whether a number is an entry of a gate, up to the sign of a zero.
pub open spec fn stands_for(factor: Complex64, entry: Complex64) -> bool {
    factor == entry || (factor == complex_neg(complex_of(0, 1)) && entry == complex_of(0, -1))
}

/// An entry of a gate times an amplitude.
pub open spec fn own_term(
    gate: Matrix4,
    first_left: bool,
    input: Seq<Complex64>,
    p: int,
    c: int,
) -> Complex64 {
    complex_mul(own_entry(gate, first_left, p, c), input[c])
}

/// Whether an amplitude is one that a gate makes of four others: the sum of its entries times
/// them, or the only product whose entry counts.
pub open spec fn is_made_by(
    gate: Matrix4,
    first_left: bool,
    input: Seq<Complex64>,
    p: int,
    value: Complex64,
) -> bool {
    let first = own_term(gate, first_left, input, p, 0);
    let rest = |start: Complex64|
        complex_add(
            complex_add(
                complex_add(start, own_term(gate, first_left, input, p, 1)),
                own_term(gate, first_left, input, p, 2),
            ),
            own_term(gate, first_left, input, p, 3),
        );
    ||| value == rest(first)
    ||| value == rest(complex_add(complex_zero(), first))
    ||| exists|c: int, factor: Complex64|
        {
            &&& 0 <= c < 4
            &&& value == #[trigger] complex_mul(factor, input[c])
            &&& stands_for(factor, own_entry(gate, first_left, p, c))
            &&& forall|other: int|
                0 <= other < 4 && other != c ==> may_be_left_out(
                    #[trigger] own_entry(gate, first_left, p, other),
                )
        }
}

/// Whether a kernel holds an entry of a gate, or leaves it out where it does not count.
pub open spec fn entry_fits(kernel: MpsTwoQKernel, gate: Matrix4, row: int, col: int) -> bool {
    match kernel {
        MpsTwoQKernel::Dense => true,
        MpsTwoQKernel::Diagonal(diagonal) => if row == col {
            stands_for(diagonal[row], gate[row][col])
        } else {
            may_be_left_out(gate[row][col])
        },
        MpsTwoQKernel::Permutation(mapping) => mapping[row].0 < 4 && (if mapping[row].0 == col {
            stands_for(mapping[row].1, gate[row][col])
        } else {
            may_be_left_out(gate[row][col])
        }),
    }
}

/// Whether a kernel holds the entries of a gate that count.
pub open spec fn hint_fits(gate: Matrix4, hint: Option<MpsTwoQKernel>) -> bool {
    hint matches Some(kernel) ==> forall|row: int, col: int|
        0 <= row < 4 && 0 <= col < 4 ==> #[trigger] entry_fits(kernel, gate, row, col)
}

proof fn lemma_kernel_fits(mat: Matrix4, kernel: MpsTwoQKernel)
    requires
        is_kernel_of(mat, kernel),
    ensures
        hint_fits(mat, Some(kernel)),
{
    assert forall|row: int, col: int| 0 <= row < 4 && 0 <= col < 4 implies #[trigger] entry_fits(
        kernel,
        mat,
        row,
        col,
    ) by {
        match kernel {
            MpsTwoQKernel::Diagonal(diagonal) => {
                assert(diagonal[row] == mat[row][row]);
            },
            MpsTwoQKernel::Permutation(mapping) => {
                assert(mapping@[row] == mapping[row]);
                assert(is_only_entry(mat, row, mapping@[row].0 as int));
            },
            MpsTwoQKernel::Dense => {},
        }
    }
}

/// Whether `gate` holds the entries of `mat` for two neighbours.
pub open spec fn is_turned(mat: Matrix4, first_left: bool, gate: Matrix4) -> bool {
    forall|p: int, c: int|
        0 <= p < 4 && 0 <= c < 4 ==> #[trigger] own_entry(mat, first_left, p, c) == gate[p][c]
}

proof fn lemma_oriented_fits(
    pos_a: int,
    pos_b: int,
    mat: Matrix4,
    hint: Option<MpsTwoQKernel>,
    gate: Matrix4,
    gate_hint: Option<MpsTwoQKernel>,
)
    requires
        hint_fits(mat, hint),
        is_oriented(pos_a, pos_b, mat, hint, gate, gate_hint),
    ensures
        hint_fits(gate, gate_hint),
        is_turned(mat, pos_a < pos_b, gate),
{
    let left = pos_a < pos_b;
    assert forall|p: int, c: int| 0 <= p < 4 && 0 <= c < 4 implies #[trigger] own_entry(
        mat,
        left,
        p,
        c,
    ) == gate[p][c] by {
        if !left {
            assert(gate[p][c] == mat[reversed_index(
                p,
            )][reversed_index(c)]);
        }
    }
    if !left && gate_hint is Some {
        let kernel = hint->0;
        let turned = gate_hint->0;
        assert forall|row: int, col: int|
            0 <= row < 4 && 0 <= col < 4 implies #[trigger] entry_fits(turned, gate, row, col) by {
            let r = reversed_index(row);
            let c = reversed_index(col);
            assert(gate[row][col] == mat[r][c]);
            assert(entry_fits(kernel, mat, r, c));
            match (kernel, turned) {
                (MpsTwoQKernel::Diagonal(diagonal), MpsTwoQKernel::Diagonal(reversed)) => {
                    assert(reversed[row] == diagonal[r]);
                },
                (MpsTwoQKernel::Permutation(mapping), MpsTwoQKernel::Permutation(reversed)) => {
                    assert(reversed[row].0 == reversed_index(mapping[r].0 as int));
                    assert(reversed[row].1 == mapping[r].1);
                },
                _ => {},
            }
        }
    }
}

proof fn lemma_made_by(
    mat: Matrix4,
    left: bool,
    gate: Matrix4,
    kernel: Option<MpsTwoQKernel>,
    input: Seq<Complex64>,
    p: int,
)
    requires
        0 <= p < 4,
        hint_fits(gate, kernel),
        is_turned(mat, left, gate),
    ensures
        is_made_by(mat, left, input, p, gate_amplitude(gate, kernel, input, p)),
{
    let value = gate_amplitude(gate, kernel, input, p);
    assert(own_entry(mat, left, p, 0) == gate[p][0]);
    assert(own_entry(mat, left, p, 1) == gate[p][1]);
    assert(own_entry(mat, left, p, 2) == gate[p][2]);
    assert(own_entry(mat, left, p, 3) == gate[p][3]);
    match kernel {
        Some(MpsTwoQKernel::Diagonal(diagonal)) => {
            assert(entry_fits(kernel->0, gate, p, p));
            assert(value == complex_mul(diagonal[p], input[p]));
            assert forall|other: int| 0 <= other < 4 && other != p implies may_be_left_out(
                #[trigger] own_entry(mat, left, p, other),
            ) by {
                assert(entry_fits(kernel->0, gate, p, other));
            }
        },
        Some(MpsTwoQKernel::Permutation(mapping)) => {
            assert(entry_fits(kernel->0, gate, p, 0));
            let c = mapping[p].0 as int;
            assert(entry_fits(kernel->0, gate, p, c));
            assert(value == complex_mul(mapping[p].1, input[c]));
            assert forall|other: int| 0 <= other < 4 && other != c implies may_be_left_out(
                #[trigger] own_entry(mat, left, p, other),
            ) by {
                assert(entry_fits(kernel->0, gate, p, other));
            }
        },
        _ => {},
    }
}

/// The four products of the amplitudes of two tensors without bonds.
pub open spec fn product_input(left: Tensor, right: Tensor) -> Seq<Complex64> {
    seq![
        complex_mul(left.at(0, 0, 0), right.at(0, 0, 0)),
        complex_mul(left.at(0, 0, 0), right.at(0, 1, 0)),
        complex_mul(left.at(0, 1, 0), right.at(0, 0, 0)),
        complex_mul(left.at(0, 1, 0), right.at(0, 1, 0)),
    ]
}

/// Whether `theta` holds what a gate makes of the amplitudes of two tensors.
pub open spec fn is_gate_on_pair(
    left: Tensor,
    right: Tensor,
    gate: Matrix4,
    first_left: bool,
    theta: Tensor,
) -> bool {
    &&& theta.left == left.left * 2
    &&& theta.right == right.right
    &&& forall|l: usize, s0: usize, s1: usize, r: usize|
        #![trigger theta.at(l * 2 + s0, s1 as int, r as int)]
        l < left.left && s0 < 2 && s1 < 2 && r < right.right ==> is_made_by(
            gate,
            first_left,
            pair_input(left, right, l as int, r as int),
            2 * s0 + s1,
            theta.at(l * 2 + s0, s1 as int, r as int),
        )
}

/// Whether two tensors come from the pair at `at` by a gate: from what it makes of their
/// amplitudes, split into two tensors again.
pub open spec fn is_gate_split(
    mid: Mps,
    at: int,
    gate: Matrix4,
    first_left: bool,
    left: Tensor,
    right: Tensor,
) -> bool {
    let (a, b) = (mid.tensors@[at], mid.tensors@[at + 1]);
    ||| exists|theta: Tensor, split: bool, alone: bool| #[trigger]
        finishes(
            theta,
            mid.truncation_threshold,
            mid.max_bond_dimension,
            alone,
            Ok::<SplitPair, GateError>((left, right, split)),
        ) && is_gate_on_pair(a, b, gate, first_left, theta)
    ||| is_product(a, b) && exists|output: Seq<Complex64>| #[trigger]
        splits_into_tensors(output, left, right) && output.len() == 4 && forall|p: int|
            0 <= p < 4 ==> is_made_by(gate, first_left, product_input(a, b), p, #[trigger] output[p])
}

/// Whether a gate acted on the pair at `at` and on nothing else.
pub open spec fn acts_on_pair(
    mid: Mps,
    at: int,
    gate: Matrix4,
    first_left: bool,
    there: Mps,
) -> bool {
    exists|left: Tensor, right: Tensor| #[trigger]
        is_gate_split(mid, at, gate, first_left, left, right) && there.tensors@ == pair_replaced(
            mid.tensors@,
            at,
            left,
            right,
        )
}

/// A gate on neighbours acts on their amplitudes by its matrix, where the first of its qubits is
/// the one that stands first among them or the other one, as it is oriented.
pub proof fn lemma_adjacent_acts(
    mid: Mps,
    at: int,
    pos_a: int,
    pos_b: int,
    mat: Matrix4,
    hint: Option<MpsTwoQKernel>,
    gate: Matrix4,
    gate_hint: Option<MpsTwoQKernel>,
    there: Mps,
)
    requires
        hint_fits(mat, hint),
        is_oriented(pos_a, pos_b, mat, hint, gate, gate_hint),
        adjacent_step(mid, at, gate, gate_hint, there, Ok::<(), GateError>(())),
    ensures
        acts_on_pair(mid, at, mat, pos_a < pos_b, there),
        same_settings(mid, there),
        there.position_to_logical@ == mid.position_to_logical@,
{
    let first_left = pos_a < pos_b;
    lemma_oriented_fits(pos_a, pos_b, mat, hint, gate, gate_hint);
    let (kernel, skipped, pair) = choose|
        kernel: Option<MpsTwoQKernel>,
        skipped: bool,
        pair: Result<SplitPair, GateError>,
    | #[trigger]
        takes_pair(mid, at, kernel, skipped, pair, there, Ok::<(), GateError>(())) && is_choice(
            mid,
            at,
            gate,
            gate_hint,
            kernel,
            skipped,
        ) && updates_to(
            mid.tensors@[at],
            mid.tensors@[at + 1],
            gate,
            kernel,
            mid.truncation_threshold,
            mid.max_bond_dimension,
            pair,
        );
    if kernel is Some && gate_hint != kernel {
        lemma_kernel_fits(gate, kernel->0);
    }
    assert(hint_fits(gate, kernel));
    let (left, right, split) = pair->Ok_0;
    let (a, b) = (mid.tensors@[at], mid.tensors@[at + 1]);
    let output = direct_output(a, b, gate, kernel->0);
    if kernel is Some && is_product(a, b) && pair->Ok_0.2 && splits_into_tensors(
        output,
        left,
        right,
    ) {
        assert forall|p: int| 0 <= p < 4 implies is_made_by(
            mat,
            first_left,
            product_input(a, b),
            p,
            #[trigger] output[p],
        ) by {
            lemma_made_by(mat, first_left, gate, kernel, product_input(a, b), p);
        }
    } else {
        assert(merges_to(
            a,
            b,
            gate,
            kernel,
            mid.truncation_threshold,
            mid.max_bond_dimension,
            pair,
        ));
        let theta = choose|theta: Tensor| #[trigger]
            is_theta(a, b, gate, kernel, theta) && finishes(
                theta,
                mid.truncation_threshold,
                mid.max_bond_dimension,
                kernel is Some,
                pair,
            );
        assert forall|l: usize, s0: usize, s1: usize, r: usize|
            #![trigger theta.at(l * 2 + s0, s1 as int, r as int)]
            l < a.left && s0 < 2 && s1 < 2 && r < b.right implies is_made_by(
            mat,
            first_left,
            pair_input(a, b, l as int, r as int),
            2 * s0 + s1,
            theta.at(l * 2 + s0, s1 as int, r as int),
        ) by {
            assert(theta.left == a.left * 2);
            let row = (l * 2 + s0) as usize;
            assert(row as int == l * 2 + s0);
            assert(row as int / 2 == l && row as int % 2 == s0);
            assert(is_entry(
                theta.left as int,
                theta.right as int,
                row as int,
                s1 as int,
                r as int,
            ));
            assert(theta.at(row as int, s1 as int, r as int) == gate_amplitude(
                gate,
                kernel,
                pair_input(a, b, l as int, r as int),
                2 * s0 + s1,
            ));
            lemma_made_by(
                mat,
                first_left,
                gate,
                kernel,
                pair_input(a, b, l as int, r as int),
                2 * s0 + s1,
            );
        }
        assert(pair == Ok::<SplitPair, GateError>((left, right, split)));
        assert(is_gate_on_pair(a, b, mat, first_left, theta));
    }
    assert(is_gate_split(mid, at, mat, first_left, left, right));
}

proof fn lemma_order_down(before: Mps, hi: int, lo: int, after: Mps)
    requires
        0 <= lo <= hi < before.position_to_logical@.len(),
        swaps_down(true, before, hi, lo, after),
    ensures
        after.position_to_logical@.len() == before.position_to_logical@.len(),
        after.position_to_logical@[lo] == before.position_to_logical@[hi],
        forall|i: int|
            0 <= i < before.position_to_logical@.len() && (i < lo || i > hi)
                ==> #[trigger] after.position_to_logical@[i] == before.position_to_logical@[i],
    decreases hi - lo,
{
    if lo < hi {
        let mid = choose|mid: Mps|
            swaps_down(true, before, hi, lo + 1, mid) && #[trigger] one_swap(
                true,
                mid,
                lo,
                after,
                Ok::<(), GateError>(()),
            );
        lemma_order_down(before, hi, lo + 1, mid);
    }
}

proof fn lemma_order_up(before: Mps, lo: int, hi: int, after: Mps)
    requires
        0 <= lo <= hi < before.position_to_logical@.len(),
        swaps_up(true, before, lo, hi, after),
    ensures
        after.position_to_logical@.len() == before.position_to_logical@.len(),
        after.position_to_logical@[hi] == before.position_to_logical@[lo],
        forall|i: int|
            0 <= i < before.position_to_logical@.len() && (i < lo || i > hi)
                ==> #[trigger] after.position_to_logical@[i] == before.position_to_logical@[i],
    decreases hi - lo,
{
    if lo < hi {
        let mid = choose|mid: Mps|
            swaps_up(true, before, lo, hi - 1, mid) && #[trigger] one_swap(
                true,
                mid,
                hi - 1,
                after,
                Ok::<(), GateError>(()),
            );
        lemma_order_up(before, lo, hi - 1, mid);
    }
}

/// Whether two states hold the same tensors for the same qubits, with the same settings.
pub open spec fn same_qubits(a: Mps, b: Mps) -> bool {
    a.tensors@ == b.tensors@ && a.position_to_logical@ == b.position_to_logical@ && same_settings(
        a,
        b,
    )
}

/// The smaller of two positions.
pub open spec fn smaller(a: int, b: int) -> int {
    if a < b {
        a
    } else {
        b
    }
}

/// The larger of two positions.
pub open spec fn larger(a: int, b: int) -> int {
    if a < b {
        b
    } else {
        a
    }
}

/// Whether swaps of neighbours brought what was at `lo` and at `hi` together.
pub open spec fn is_brought(
    moves: bool,
    before: Mps,
    start: Mps,
    lo: int,
    hi: int,
    mid: Mps,
) -> bool {
    same_qubits(start, before) && (swaps_down(moves, start, hi, lo + 1, mid) || (moves && swaps_up(
        true,
        start,
        lo,
        hi - 1,
        mid,
    )))
}

/// Whether a two-qubit gate met its qubits: from `before`, swaps led to `mid`, where the qubit
/// `a` and the qubit `b` are neighbours at `at` and `at + 1` in one order or the other; its
/// matrix acted on that pair, with `a` as the first qubit, and led to `there`. Where the order is
/// restored, tensors are swapped under the labels, and swapped back afterwards.
pub open spec fn meets_its_qubits(
    before: Mps,
    a: usize,
    b: usize,
    gate: Matrix4,
    mid: Mps,
    at: int,
    there: Mps,
    after: Mps,
) -> bool {
    let pos_a = before.logical_to_position@[a as int] as int;
    let pos_b = before.logical_to_position@[b as int] as int;
    let lo = smaller(pos_a, pos_b);
    let hi = larger(pos_a, pos_b);
    &&& 0 <= at && at + 1 < before.tensors@.len()
    &&& acts_on_pair(mid, at, gate, pos_a < pos_b, there)
    &&& same_settings(mid, there)
    &&& there.position_to_logical@ == mid.position_to_logical@
    &&& if before.config.routing_mode is Restore {
        &&& at == lo
        &&& exists|start: Mps| #[trigger] is_brought(false, before, start, lo, hi, mid)
        &&& swaps_up(false, there, lo + 1, hi, after)
    } else {
        &&& mid.position_to_logical@[if pos_a < pos_b {
            at
        } else {
            at + 1
        }] == a
        &&& mid.position_to_logical@[if pos_a < pos_b {
            at + 1
        } else {
            at
        }] == b
        &&& after == there
        &&& exists|start: Mps| #[trigger] is_brought(true, before, start, lo, hi, mid)
    }
}

proof fn lemma_lazy_meets(
    before: Mps,
    start: Mps,
    a: usize,
    b: usize,
    mat: Matrix4,
    direction: RoutingDirection,
    hint: Option<MpsTwoQKernel>,
    after: Mps,
) -> (r: (Mps, int))
    requires
        before.wf(),
        a < before.tensors@.len(),
        b < before.tensors@.len(),
        a != b,
        !(before.config.routing_mode is Restore),
        same_qubits(start, before),
        hint_fits(mat, hint),
        lazy_step(
            start,
            before.logical_to_position@[a as int] as int,
            before.logical_to_position@[b as int] as int,
            mat,
            direction,
            hint,
            after,
            Ok::<(), GateError>(()),
        ),
    ensures
        meets_its_qubits(before, a, b, mat, r.0, r.1, after, after),
{
    let pos_a = before.logical_to_position@[a as int] as int;
    let pos_b = before.logical_to_position@[b as int] as int;
    let (lo, hi) = (lower_of(pos_a, pos_b), higher_of(pos_a, pos_b));
    assert(before.position_to_logical@[pos_a] == a && before.position_to_logical@[pos_b] == b);
    let (gate, gate_hint, mid, res) = choose|
        gate: Matrix4,
        gate_hint: Option<MpsTwoQKernel>,
        mid: Mps,
        res: Result<(), GateError>,
    |
        is_oriented(pos_a, pos_b, mat, hint, gate, gate_hint) && #[trigger] lazy_route(
            start,
            lo,
            hi,
            gate,
            direction,
            gate_hint,
            mid,
            res,
            after,
            Ok::<(), GateError>(()),
        );
    let at = meeting_point(lo, hi, direction);
    lemma_adjacent_acts(mid, at, pos_a, pos_b, mat, hint, gate, gate_hint, after);
    match direction {
        RoutingDirection::MoveHighLeft => {
            lemma_order_down(start, hi, lo + 1, mid);
        },
        RoutingDirection::MoveLowRight => {
            lemma_order_up(start, lo, hi - 1, mid);
        },
    }
    assert(is_brought(true, before, start, smaller(pos_a, pos_b), larger(pos_a, pos_b), mid));
    assert(acts_on_pair(mid, at, mat, pos_a < pos_b, after));
    assert(after.position_to_logical@ == mid.position_to_logical@);
    assert(mid.position_to_logical@[at] == before.position_to_logical@[lo]);
    assert(mid.position_to_logical@[at + 1] == before.position_to_logical@[hi]);
    (mid, at)
}

proof fn lemma_restoring_meets(
    before: Mps,
    start: Mps,
    a: usize,
    b: usize,
    mat: Matrix4,
    hint: Option<MpsTwoQKernel>,
    after: Mps,
) -> (r: (Mps, int, Mps))
    requires
        before.wf(),
        a < before.tensors@.len(),
        b < before.tensors@.len(),
        a != b,
        before.config.routing_mode is Restore,
        same_qubits(start, before),
        hint_fits(mat, hint),
        restoring_step(
            start,
            before.logical_to_position@[a as int] as int,
            before.logical_to_position@[b as int] as int,
            mat,
            hint,
            after,
            Ok::<(), GateError>(()),
        ),
    ensures
        meets_its_qubits(before, a, b, mat, r.0, r.1, r.2, after),
{
    let pos_a = before.logical_to_position@[a as int] as int;
    let pos_b = before.logical_to_position@[b as int] as int;
    let (lo, hi) = (lower_of(pos_a, pos_b), higher_of(pos_a, pos_b));
    assert(before.position_to_logical@[pos_a] == a && before.position_to_logical@[pos_b] == b);
    let (own, own_hint, mid, res) = choose|
        own: Matrix4,
        own_hint: Option<MpsTwoQKernel>,
        mid: Mps,
        res: Result<(), GateError>,
    |
        is_oriented(pos_a, pos_b, mat, hint, own, own_hint) && #[trigger] restoring_route(
            start,
            lo,
            hi,
            own,
            own_hint,
            mid,
            res,
            after,
            Ok::<(), GateError>(()),
        );
    assert(gate_and_back(mid, lo, hi, own, own_hint, after, Ok::<(), GateError>(())));
    let (there, r) = choose|there: Mps, r: Result<(), GateError>| #[trigger]
        adjacent_step(mid, lo, own, own_hint, there, r) && match r {
            Ok(_) => ends_up(false, there, lo + 1, hi, after, Ok::<(), GateError>(())),
            Err(_) => after == there && Ok::<(), GateError>(()) == r,
        };
    let unit: () = r->Ok_0;
    assert(unit == ());
    assert(r == Ok::<(), GateError>(()));
    lemma_adjacent_acts(mid, lo, pos_a, pos_b, mat, hint, own, own_hint, there);
    assert(is_brought(false, before, start, smaller(pos_a, pos_b), larger(pos_a, pos_b), mid));
    assert(acts_on_pair(mid, lo, mat, pos_a < pos_b, there));
    assert(there.position_to_logical@ == mid.position_to_logical@);
    assert(swaps_up(false, there, lo + 1, hi, after));
    (mid, lo, there)
}

/// A two-qubit gate that succeeds acts on the amplitudes of its two qubits by its matrix, its
/// first qubit being the higher bit of the rows and columns, wherever the qubits stand and
/// whichever has the larger number.
pub proof fn law_two_qubit_gates_act_on_their_qubits(
    gate: Matrix4,
    a: usize,
    b: usize,
    hint: Option<MpsTwoQKernel>,
    ahead: Seq<Instruction>,
    before: MpsPoint,
    after: MpsPoint,
) -> (r: (Mps, int, Mps))
    requires
        before.mps.wf(),
        a < before.mps.tensors@.len(),
        b < before.mps.tensors@.len(),
        a != b,
        hint_fits(gate, hint),
        acts_to(
            MpsAction::TwoQubit { gate, a, b, hint },
            ahead,
            before,
            after,
            Ok::<(), GateError>(()),
        ),
    ensures
        meets_its_qubits(before.mps, a, b, gate, r.0, r.1, r.2, after.mps),
        after.cbits == before.cbits,
        after.rng == before.rng,
{
    let m = before.mps;
    let pos_a = m.logical_to_position@[a as int] as int;
    let pos_b = m.logical_to_position@[b as int] as int;
    let counted = with_counters(
        m,
        m.counters.after_gate(distance(pos_a, pos_b)),
    );
    assert(m.position_to_logical@[pos_a] == a && m.position_to_logical@[pos_b] == b);
    match m.config.routing_mode {
        MpsRoutingMode::Restore => {
            let r = lemma_restoring_meets(m, counted, a, b, gate, hint, after.mps);
            (r.0, r.1, r.2)
        },
        MpsRoutingMode::Lazy => {
            let r = lemma_lazy_meets(
                m,
                counted,
                a,
                b,
                gate,
                RoutingDirection::MoveHighLeft,
                hint,
                after.mps,
            );
            (r.0, r.1, after.mps)
        },
        MpsRoutingMode::Lookahead => {
            let near = swaps_needed(pos_a, pos_b) == 0;
            let direction = if near {
                RoutingDirection::MoveHighLeft
            } else {
                chosen_direction(
                    MpsRoutingMode::Lookahead,
                    counted.position_to_logical@,
                    pos_a,
                    pos_b,
                    ahead,
                    counted.config.lookahead_depth as nat,
                )
            };
            let start = if near {
                counted
            } else {
                with_counters(
                    counted,
                    counters_routed(counted.counters, direction),
                )
            };
            let r = lemma_lazy_meets(m, start, a, b, gate, direction, hint, after.mps);
            (r.0, r.1, after.mps)
        },
    }
}

/// Whether a gate on two qubits leaves the second one alone where the first one is clear, and
/// applies `u` to it where the first one is set.
pub open spec fn is_guard_matrix(gate: Matrix4, u: Matrix2) -> bool {
    forall|first: int, second: int, first_in: int, second_in: int|
        #![trigger gate[2 * first + second][2 * first_in + second_in]]
        0 <= first < 2 && 0 <= second < 2 && 0 <= first_in < 2 && 0 <= second_in < 2
            ==> gate[2 * first + second][2 * first_in + second_in] == if first != first_in {
            complex_zero()
        } else if first == 1 {
            u[second][second_in]
        } else if second == second_in {
            complex_one()
        } else {
            complex_zero()
        }
}

/// Whether a gate on two qubits exchanges their values.
pub open spec fn is_exchange_matrix(gate: Matrix4) -> bool {
    forall|first: int, second: int, first_in: int, second_in: int|
        #![trigger gate[2 * first + second][2 * first_in + second_in]]
        0 <= first < 2 && 0 <= second < 2 && 0 <= first_in < 2 && 0 <= second_in < 2
            ==> gate[2 * first + second][2 * first_in + second_in] == if first == second_in
            && second == first_in {
            complex_one()
        } else {
            complex_zero()
        }
}

/// The two qubits of a gate in the order of its operands: the control comes before the target.
pub open spec fn operands(inst: Instruction) -> Option<(usize, usize)> {
    match inst {
        Instruction::Swap { a, b }
        | Instruction::Rxx { a, b, .. }
        | Instruction::Rzz { a, b, .. } => Some((a, b)),
        _ => if named_controls(inst).len() == 1 {
            Some((named_controls(inst)[0], named_target(inst)))
        } else {
            None
        },
    }
}

/// Whether a matrix is that of a two-qubit gate: of a one-qubit gate that a control guards, of an
/// exchange, or of a rotation.
pub open spec fn is_matrix_for(inst: Instruction, gate: Matrix4) -> bool {
    match inst {
        Instruction::Swap { .. } => is_exchange_matrix(gate),
        Instruction::Rxx { theta, .. } => is_rxx_of(gate, theta),
        Instruction::Rzz { theta, .. } => is_rzz_of(gate, theta),
        _ => exists|u: Matrix2| #[trigger]
            is_guard_matrix(gate, u) && is_target_matrix(inst, u) && forall|plain: Instruction|
                is_plain_form(inst, plain) ==> #[trigger] is_matrix_of(plain, u),
    }
}

pub proof fn lemma_action_matrix(inst: Instruction, links: LinkGates, action: MpsAction)
    requires
        operands(inst) is Some,
        is_mps_action_of(inst, links, Ok::<MpsAction, GateError>(action)),
    ensures
        action matches MpsAction::TwoQubit { gate, a, b, hint } && is_matrix_for(inst, gate)
            && hint_fits(gate, hint) && Some((a, b)) == operands(inst),
{
    match action {
        MpsAction::TwoQubit { gate, hint, .. } => {
            if inst is Swap {
                assert(is_exchange_matrix(gate)) by {
                    assert forall|first: int, second: int, first_in: int, second_in: int|
                        #![trigger gate[2 * first + second][2 * first_in + second_in]]
                        0 <= first < 2 && 0 <= second < 2 && 0 <= first_in < 2 && 0 <= second_in
                            < 2 implies gate[2 * first + second][2 * first_in + second_in]
                        == if first == second_in && second == first_in {
                        complex_one()
                    } else {
                        complex_zero()
                    } by {}
                }
            } else if !(inst is Rxx) && !(inst is Rzz) {
                let u = choose|u: Matrix2| #[trigger]
                    is_target_matrix(inst, u) && is_controlled_4(gate, u);
                assert forall|first: int, second: int, first_in: int, second_in: int|
                    #![trigger gate[2 * first + second][2 * first_in + second_in]]
                    0 <= first < 2 && 0 <= second < 2 && 0 <= first_in < 2 && 0 <= second_in
                        < 2 implies gate[2 * first + second][2 * first_in + second_in] == if first
                    != first_in {
                    complex_zero()
                } else if first == 1 {
                    u[second][second_in]
                } else if second == second_in {
                    complex_one()
                } else {
                    complex_zero()
                } by {}
                assert(is_guard_matrix(gate, u));
                assert forall|plain: Instruction| is_plain_form(
                    inst,
                    plain,
                ) implies #[trigger] is_matrix_of(plain, u) by {}
            }
            if hint is Some {
                let kernel = hint->0;
                assert forall|row: int, col: int|
                    0 <= row < 4 && 0 <= col < 4 implies #[trigger] entry_fits(
                    kernel,
                    gate,
                    row,
                    col,
                ) by {
                    lemma_hint_entry(inst, gate, kernel, row, col);
                }
            }
        },
        _ => {},
    }
}

proof fn lemma_hint_entry(
    inst: Instruction,
    gate: Matrix4,
    kernel: MpsTwoQKernel,
    row: int,
    col: int,
)
    requires
        is_hint_of(inst, Some(kernel)),
        is_pair_matrix(inst, gate),
        0 <= row < 4,
        0 <= col < 4,
    ensures
        entry_fits(kernel, gate, row, col),
{
    if !(inst is Swap) {
        let u = choose|u: Matrix2| #[trigger]
            is_target_matrix(inst, u) && is_controlled_4(gate, u);
        assert(gate[row][col] == controlled_entry(u, 4, row, col));
    } else {
        assert(gate[row][col] == gate[row][col]);
    }
    match kernel {
        MpsTwoQKernel::Diagonal(diagonal) => {
            assert(diagonal@[row] == diagonal[row]);
        },
        MpsTwoQKernel::Permutation(mapping) => {
            assert(mapping@[row] == mapping[row]);
        },
        MpsTwoQKernel::Dense => {},
    }
}

/// An instruction on two qubits that succeeds acts on them by its matrix, its first operand being
/// the first qubit: a control guards its target, whichever of them has the larger number.
pub proof fn law_two_qubit_instructions_act_on_their_operands(
    inst: Instruction,
    first: usize,
    second: usize,
    links: LinkGates,
    ahead: Seq<Instruction>,
    before: MpsPoint,
    after: MpsPoint,
) -> (r: (Matrix4, Mps, int, Mps))
    requires
        operands(inst) == Some((first, second)),
        first != second,
        first < before.mps.tensors@.len(),
        second < before.mps.tensors@.len(),
        before.mps.wf(),
        mps_steps_to(inst, ahead, links, before, after, Ok::<(), GateError>(())),
    ensures
        is_matrix_for(inst, r.0),
        meets_its_qubits(
            before.mps,
            first,
            second,
            r.0,
            r.1,
            r.2,
            r.3,
            after.mps,
        ),
        after.cbits == before.cbits,
        after.rng == before.rng,
{
    let action = choose|action: Result<MpsAction, GateError>| #[trigger]
        is_mps_action_of(inst, links, action) && match action {
            Ok(act) => acts_to(act, ahead, before, after, Ok::<(), GateError>(())),
            Err(e) => after == before && Ok::<(), GateError>(()) == Err::<(), GateError>(e),
        };
    lemma_action_matrix(inst, links, action->Ok_0);
    match action->Ok_0 {
        MpsAction::TwoQubit { gate, a, b, hint } => {
            let r = law_two_qubit_gates_act_on_their_qubits(
                gate,
                a,
                b,
                hint,
                ahead,
                before,
                after,
            );
            (gate, r.0, r.1, r.2)
        },
        _ => {
            assert(false);
            (arbitrary(), before.mps, 0, before.mps)
        },
    }
}

/// Whether one counts and differs from the other units.
pub open spec fn one_counts() -> bool {
    &&& complex_one() != complex_zero()
    &&& complex_one() != complex_of(0, -1)
    &&& !is_negligible(complex_one(), 14)
}

/// A row of a gate with a single one gives the amplitude that the one stands for.
proof fn lemma_made_by_unit<V>(
    val: spec_fn(Complex64) -> V,
    plus: spec_fn(V, V) -> V,
    gate: Matrix4,
    first_left: bool,
    input: Seq<Complex64>,
    p: int,
    value: Complex64,
    j: int,
)
    requires
        is_reading(val, plus),
        one_counts(),
        input.len() == 4,
        forall|c: int| 0 <= c < 4 ==> is_plain(val, #[trigger] input[c]),
        is_made_by(gate, first_left, input, p, value),
        0 <= j < 4,
        forall|c: int|
            0 <= c < 4 ==> #[trigger] own_entry(gate, first_left, p, c) == if c == j {
                complex_one()
            } else {
                complex_zero()
            },
    ensures
        val(value) == val(input[j]),
{
    let t = |c: int| own_term(gate, first_left, input, p, c);
    assert forall|c: int| 0 <= c < 4 implies val(#[trigger] t(c)) == if c == j {
        val(input[j])
    } else {
        val(complex_zero())
    } by {
        assert(is_plain(val, input[c]));
        assert(own_entry(gate, first_left, p, c) == if c == j {
            complex_one()
        } else {
            complex_zero()
        });
    }
    let start = complex_add(complex_zero(), t(0));
    assert(val(start) == plus(val(complex_zero()), val(t(0))));
    let s1 = complex_add(t(0), t(1));
    let s2 = complex_add(s1, t(2));
    let s3 = complex_add(s2, t(3));
    assert(val(s1) == plus(val(t(0)), val(t(1))));
    assert(val(s2) == plus(val(s1), val(t(2))));
    assert(val(s3) == plus(val(s2), val(t(3))));
    let z1 = complex_add(start, t(1));
    let z2 = complex_add(z1, t(2));
    let z3 = complex_add(z2, t(3));
    assert(val(z1) == plus(val(start), val(t(1))));
    assert(val(z2) == plus(val(z1), val(t(2))));
    assert(val(z3) == plus(val(z2), val(t(3))));
    if value != s3 && value != z3 {
        let (c, factor) = choose|c: int, factor: Complex64|
            {
                &&& 0 <= c < 4
                &&& value == #[trigger] complex_mul(factor, input[c])
                &&& stands_for(factor, own_entry(gate, first_left, p, c))
                &&& forall|other: int|
                    0 <= other < 4 && other != c ==> may_be_left_out(
                        #[trigger] own_entry(gate, first_left, p, other),
                    )
            };
        if c != j {
            assert(may_be_left_out(own_entry(gate, first_left, p, j)));
        }
        assert(is_plain(val, input[c]));
    }
}

/// Whether the amplitudes of two tensors are such that zero, one and minus one act on them as on
/// numbers.
pub open spec fn pair_is_plain<V>(
    val: spec_fn(Complex64) -> V,
    left: Tensor,
    right: Tensor,
    l: int,
    r: int,
) -> bool {
    forall|c: int| 0 <= c < 4 ==> is_plain(val, #[trigger] pair_input(left, right, l, r)[c])
}

/// A controlled NOT on two neighbours flips the value of the target where the control is set,
/// whether the control stands to the left or to the right.
pub proof fn law_controlled_not_flips_its_target_on_pairs<V>(
    val: spec_fn(Complex64) -> V,
    plus: spec_fn(V, V) -> V,
    control: usize,
    target: usize,
    gate: Matrix4,
    control_left: bool,
    left: Tensor,
    right: Tensor,
    theta: Tensor,
    l: usize,
    s0: usize,
    s1: usize,
    r: usize,
)
    requires
        is_reading(val, plus),
        one_counts(),
        is_matrix_for(Instruction::Cx { control, target }, gate),
        is_gate_on_pair(left, right, gate, control_left, theta),
        l < left.left,
        s0 < 2,
        s1 < 2,
        r < right.right,
        pair_is_plain(val, left, right, l as int, r as int),
    ensures
        val(theta.at(l * 2 + s0, s1 as int, r as int)) == val(
            if control_left {
                pair_amplitude(
                    left,
                    right,
                    l as int,
                    s0 as int,
                    flipped_by(s0 as int, s1 as int),
                    r as int,
                )
            } else {
                pair_amplitude(
                    left,
                    right,
                    l as int,
                    flipped_by(s1 as int, s0 as int),
                    s1 as int,
                    r as int,
                )
            },
        ),
{
    let inst = Instruction::Cx { control, target };
    let u = choose|u: Matrix2| #[trigger]
        is_guard_matrix(gate, u) && is_target_matrix(inst, u) && forall|plain: Instruction|
            is_plain_form(inst, plain) ==> #[trigger] is_matrix_of(plain, u);
    let x = Instruction::X { qubit: target };
    assert(is_plain_form(inst, x));
    assert(is_matrix_of(x, u));
    let p = 2 * s0 + s1;
    let j = if control_left {
        2 * s0 + flipped_by(s0 as int, s1 as int)
    } else {
        2 * flipped_by(s1 as int, s0 as int) + s1
    };
    let input = pair_input(left, right, l as int, r as int);
    let value = theta.at(l * 2 + s0, s1 as int, r as int);
    assert(is_made_by(gate, control_left, input, p, value));
    assert forall|c: int| 0 <= c < 4 implies #[trigger] own_entry(gate, control_left, p, c) == if c
        == j {
        complex_one()
    } else {
        complex_zero()
    } by {
        let (first, second) = if control_left {
            (s0 as int, s1 as int)
        } else {
            (s1 as int, s0 as int)
        };
        let (first_in, second_in) = if control_left {
            (c / 2, c % 2)
        } else {
            (c % 2, c / 2)
        };
        assert(p / 2 == s0 && p % 2 == s1);
        assert(own_entry(gate, control_left, p, c) == gate[2 * first + second][2 * first_in
            + second_in]);
    }
    lemma_made_by_unit(val, plus, gate, control_left, input, p, value, j);
}

/// A swap on two neighbours exchanges their values; so does every swap that routes a qubit.
pub proof fn law_swaps_exchange_pairs<V>(
    val: spec_fn(Complex64) -> V,
    plus: spec_fn(V, V) -> V,
    gate: Matrix4,
    first_left: bool,
    left: Tensor,
    right: Tensor,
    theta: Tensor,
    l: usize,
    s0: usize,
    s1: usize,
    r: usize,
)
    requires
        is_reading(val, plus),
        one_counts(),
        is_exchange_matrix(gate),
        is_gate_on_pair(left, right, gate, first_left, theta),
        l < left.left,
        s0 < 2,
        s1 < 2,
        r < right.right,
        pair_is_plain(val, left, right, l as int, r as int),
    ensures
        val(theta.at(l * 2 + s0, s1 as int, r as int)) == val(
            pair_amplitude(left, right, l as int, s1 as int, s0 as int, r as int),
        ),
{
    let p = 2 * s0 + s1;
    let j = 2 * s1 + s0;
    let input = pair_input(left, right, l as int, r as int);
    let value = theta.at(l * 2 + s0, s1 as int, r as int);
    assert(is_made_by(gate, first_left, input, p, value));
    assert forall|c: int| 0 <= c < 4 implies #[trigger] own_entry(gate, first_left, p, c) == if c
        == j {
        complex_one()
    } else {
        complex_zero()
    } by {
        let (first, second) = if first_left {
            (s0 as int, s1 as int)
        } else {
            (s1 as int, s0 as int)
        };
        let (first_in, second_in) = if first_left {
            (c / 2, c % 2)
        } else {
            (c % 2, c / 2)
        };
        assert(p / 2 == s0 && p % 2 == s1);
        assert(own_entry(gate, first_left, p, c) == gate[2 * first + second][2 * first_in
            + second_in]);
    }
    lemma_made_by_unit(val, plus, gate, first_left, input, p, value, j as int);
}

/// Every swap that routes a qubit acts on its two neighbours by an exchange, and the labels of
/// the two positions are exchanged where the qubits move.
pub proof fn law_routing_swaps_exchange_neighbours(
    moves: bool,
    before: Mps,
    position: int,
    after: Mps,
) -> (r: (Matrix4, Mps))
    requires
        0 <= position,
        position + 1 < before.position_to_logical@.len(),
        one_swap(moves, before, position, after, Ok::<(), GateError>(())),
    ensures
        is_exchange_matrix(r.0),
        acts_on_pair(before, position, r.0, true, r.1),
        after.tensors@ == r.1.tensors@,
        moves ==> after.position_to_logical@[position] == before.position_to_logical@[position + 1]
            && after.position_to_logical@[position + 1] == before.position_to_logical@[position],
        !moves ==> after.position_to_logical@ == before.position_to_logical@,
        forall|i: int|
            0 <= i < before.position_to_logical@.len() && i != position && i != position + 1
                ==> #[trigger] after.position_to_logical@[i] == before.position_to_logical@[i],
{
    let mid = if moves {
        choose|mid: Mps| #[trigger]
            physical_swap(before, position, mid, Ok::<(), GateError>(())) && (
            after.tensors@ == mid.tensors@ && after.position_to_logical@
                == neighbours_swapped(mid.position_to_logical@, position))
    } else {
        after
    };
    let counted = with_counters(before, before.counters.after_routing_swap());
    let (swap, kernel) = choose|swap: Matrix4, kernel: MpsTwoQKernel|
        is_swap_4(swap) && is_swap_kernel(kernel) && #[trigger] adjacent_step(
            counted,
            position,
            swap,
            Some(kernel),
            mid,
            Ok::<(), GateError>(()),
        );
    assert forall|row: int, col: int| 0 <= row < 4 && 0 <= col < 4 implies #[trigger] entry_fits(
        kernel,
        swap,
        row,
        col,
    ) by {
        assert(swap[row][col] == swap[row][col]);
        match kernel {
            MpsTwoQKernel::Permutation(mapping) => {
                assert(mapping@[row] == mapping[row]);
            },
            _ => {},
        }
    }
    assert(is_exchange_matrix(swap)) by {
        assert forall|first: int, second: int, first_in: int, second_in: int|
            #![trigger swap[2 * first + second][2 * first_in + second_in]]
            0 <= first < 2 && 0 <= second < 2 && 0 <= first_in < 2 && 0 <= second_in
                < 2 implies swap[2 * first + second][2 * first_in + second_in] == if first
            == second_in && second == first_in {
            complex_one()
        } else {
            complex_zero()
        } by {}
    }
    lemma_adjacent_acts(
        counted,
        position,
        0,
        1,
        swap,
        Some(kernel),
        swap,
        Some(kernel),
        mid,
    );
    let (left, right) = choose|left: Tensor, right: Tensor| #[trigger]
        is_gate_split(counted, position, swap, true, left, right) && mid.tensors@ == pair_replaced(
            counted.tensors@,
            position,
            left,
            right,
        );
    assert(is_gate_split(before, position, swap, true, left, right));
    (swap, mid)
}

/// Whether two states agree but for the tensor at one position.
pub open spec fn differs_only_at(before: Mps, after: Mps, position: int) -> bool {
    &&& after.tensors@.len() == before.tensors@.len()
    &&& after.position_to_logical@ == before.position_to_logical@
    &&& after.logical_to_position@ == before.logical_to_position@
    &&& forall|i: int|
        0 <= i < before.tensors@.len() && i != position ==> #[trigger] after.tensors@[i]
            == before.tensors@[i]
}

/// The two amplitudes that a tensor holds for values of its bonds.
pub open spec fn tensor_column(t: Tensor, l: int, r: int) -> Seq<Complex64> {
    seq![t.at(l, 0, r), t.at(l, 1, r)]
}

/// A one-qubit gate applies its matrix to the tensor that stands where its qubit is, just as it
/// is applied to the state of one qubit, and to nothing else.
pub proof fn law_one_qubit_gates_act_where_their_qubit_stands<V>(
    val: spec_fn(Complex64) -> V,
    plus: spec_fn(V, V) -> V,
    inst: Instruction,
    links: LinkGates,
    ahead: Seq<Instruction>,
    before: MpsPoint,
    after: MpsPoint,
    qubit: usize,
) -> (r: (Matrix2, int))
    requires
        is_reading(val, plus),
        single_gate_qubit(inst) == Some(qubit),
        !(inst is Id) && !(inst is U0),
        before.mps.wf(),
        qubit < before.mps.tensors@.len(),
        mps_steps_to(inst, ahead, links, before, after, Ok::<(), GateError>(())),
    ensures
        is_matrix_of(inst, r.0),
        0 <= r.1 < before.mps.tensors@.len(),
        before.mps.position_to_logical@[r.1] == qubit,
        differs_only_at(before.mps, after.mps, r.1),
        after.cbits == before.cbits && after.rng == before.rng,
        ({
            let (old_tensor, new_tensor) = (before.mps.tensors@[r.1], after.mps.tensors@[r.1]);
            &&& new_tensor.left == old_tensor.left && new_tensor.right == old_tensor.right
            &&& forall|l: usize, s: usize, rt: usize|
                #![trigger new_tensor.at(l as int, s as int, rt as int)]
                l < old_tensor.left && s < 2 && rt < old_tensor.right ==> val(
                    new_tensor.at(l as int, s as int, rt as int),
                ) == val(
                    one_qubit_applied(
                        tensor_column(old_tensor, l as int, rt as int),
                        r.0,
                        0,
                        1,
                        Seq::empty(),
                    )[s as int],
                )
        }),
{
    let action = choose|action: Result<MpsAction, GateError>| #[trigger]
        is_mps_action_of(inst, links, action) && match action {
            Ok(act) => acts_to(act, ahead, before, after, Ok::<(), GateError>(())),
            Err(e) => after == before && Ok::<(), GateError>(()) == Err::<(), GateError>(e),
        };
    let m = action->Ok_0->OneQubit_matrix;
    let position = before.mps.logical_to_position@[qubit as int] as int;
    assert(before.mps.position_to_logical@[position] == qubit);
    let (old_tensor, new_tensor) = (before.mps.tensors@[position], after.mps.tensors@[position]);
    assert forall|l: usize, s: usize, rt: usize|
        #![trigger new_tensor.at(l as int, s as int, rt as int)]
        l < old_tensor.left && s < 2 && rt < old_tensor.right implies val(
        new_tensor.at(l as int, s as int, rt as int),
    ) == val(
        one_qubit_applied(
            tensor_column(old_tensor, l as int, rt as int),
            m,
            0,
            1,
            Seq::empty(),
        )[s as int],
    ) by {
        lemma_applied_to_one_qubit(tensor_column(old_tensor, l as int, rt as int), m);
        let first = complex_mul(m[s as int][0], old_tensor.at(l as int, 0, rt as int));
        let second = complex_mul(m[s as int][1], old_tensor.at(l as int, 1, rt as int));
        let start = complex_add(complex_zero(), first);
        assert(is_entry(
            new_tensor.left as int,
            new_tensor.right as int,
            l as int,
            s as int,
            rt as int,
        ));
        assert(new_tensor.at(l as int, s as int, rt as int) == complex_add(start, second));
        assert(val(start) == plus(val(complex_zero()), val(first)));
        assert(val(complex_add(start, second)) == plus(val(start), val(second)));
        assert(val(complex_add(first, second)) == plus(val(first), val(second)));
    }
    (m, position)
}

/// A measurement looks at the tensor that stands where its qubit is: it writes 1 exactly where the
/// number drawn is below the share of 1 there. The amplitudes of the other value become zero, and
/// those of the value found are scaled by one over the square root of its weight. Nothing else
/// changes.
pub proof fn law_measurements_look_where_their_qubit_stands(
    qubit: usize,
    cbit: usize,
    links: LinkGates,
    ahead: Seq<Instruction>,
    before: MpsPoint,
    after: MpsPoint,
    res: Result<(), GateError>,
) -> (position: int)
    requires
        before.mps.wf(),
        qubit < before.mps.tensors@.len(),
        mps_steps_to(Instruction::Measure { qubit, cbit }, ahead, links, before, after, res),
    ensures
        res is Ok,
        0 <= position < before.mps.tensors@.len(),
        before.mps.position_to_logical@[position] == qubit,
        differs_only_at(before.mps, after.mps, position),
        after.rng == drawn_unit(before.rng).1,
        ({
            let tensors = before.mps.tensors@;
            let weights = |outcome: int| outcome_weight(tensors, position, outcome);
            let one = real_less(
                drawn_unit(before.rng).0,
                share_of_one(weights(0), weights(1)),
            );
            let found: int = if one {
                1
            } else {
                0
            };
            let (old_tensor, new_tensor) = (tensors[position], after.mps.tensors@[position]);
            &&& after.cbits == before.cbits.insert(cbit, found as i32)
            &&& new_tensor.left == old_tensor.left && new_tensor.right == old_tensor.right
            &&& forall|l: usize, s: usize, rt: usize|
                #![trigger new_tensor.at(l as int, s as int, rt as int)]
                l < old_tensor.left && s < 2 && rt < old_tensor.right ==> new_tensor.at(
                    l as int,
                    s as int,
                    rt as int,
                ) == if s == found {
                    complex_mul(
                        old_tensor.at(l as int, s as int, rt as int),
                        if real_less(complex_zero(), weights(found)) {
                            real_div(complex_one(), real_sqrt(weights(found)))
                        } else {
                            complex_zero()
                        },
                    )
                } else {
                    complex_zero()
                }
        }),
{
    let position = before.mps.logical_to_position@[qubit as int] as int;
    assert(before.mps.position_to_logical@[position] == qubit);
    let (old_tensor, new_tensor) = (
        before.mps.tensors@[position],
        after.mps.tensors@[position],
    );
    assert forall|l: usize, s: usize, rt: usize|
        #![trigger new_tensor.at(l as int, s as int, rt as int)]
        l < old_tensor.left && s < 2 && rt < old_tensor.right implies is_entry(
        new_tensor.left as int,
        new_tensor.right as int,
        l as int,
        s as int,
        rt as int,
    ) by {}
    position
}

/// A reset leads where a measurement of the qubit leads that is not written, or from there on by
/// an X gate where the measurement finds 1.
pub proof fn law_resets_measure_and_flip_on_mps(
    qubit: usize,
    cbit: usize,
    links: LinkGates,
    ahead: Seq<Instruction>,
    before: MpsPoint,
    after: MpsPoint,
    res: Result<(), GateError>,
) -> (r: (MpsPoint, Matrix2))
    requires
        before.mps.wf(),
        qubit < before.mps.tensors@.len(),
        mps_steps_to(Instruction::Reset { qubit }, ahead, links, before, after, res),
    ensures
        res is Ok,
        mps_steps_to(
            Instruction::Measure { qubit, cbit },
            ahead,
            links,
            before,
            r.0,
            Ok::<(), GateError>(()),
        ),
        after.cbits == before.cbits,
        after.rng == r.0.rng,
        if r.0.cbits[cbit] == 1 {
            is_matrix_of(Instruction::X { qubit }, r.1) && one_qubit_step(
                r.0.mps,
                qubit as int,
                r.1,
                after.mps,
            )
        } else {
            after.mps == r.0.mps
        },
{
    let found = finds_one(before.mps, qubit as int, before.rng);
    let (mid, x) = if found {
        choose|mid: Mps, x: Matrix2| #[trigger]
            one_qubit_step(mid, qubit as int, x, after.mps) && is_fixed_gate(Kind::X, x)
                && measurement_step(before.mps, qubit as int, before.rng, mid)
    } else {
        (after.mps, arbitrary())
    };
    let point = MpsPoint {
        mps: mid,
        cbits: before.cbits.insert(cbit, bit_value(found) as i32),
        rng: drawn_unit(before.rng).1,
    };
    let measure = Instruction::Measure { qubit, cbit };
    let action = Ok::<MpsAction, GateError>(MpsAction::Measure { qubit, cbit });
    assert(is_mps_action_of(measure, links, action));
    assert(acts_to(action->Ok_0, ahead, before, point, Ok::<(), GateError>(())));
    (point, x)
}

/// Identities, barriers and classical statements change nothing.
pub proof fn law_identities_change_nothing_on_mps(
    inst: Instruction,
    links: LinkGates,
    ahead: Seq<Instruction>,
    before: MpsPoint,
    after: MpsPoint,
    res: Result<(), GateError>,
)
    requires
        inst is Id || inst is U0 || inst is Barrier || inst is Classical,
        mps_steps_to(inst, ahead, links, before, after, res),
    ensures
        after == before,
        res is Ok,
{
}

} // verus!
