//! What holds of reduced circuits, of the moves that bring qubits together, and of listed
//! probabilities.

use num_complex::Complex64;
use vstd::prelude::*;

use crate::complex::{complex_zero, real_less};
use crate::instruction::{same_instruction, Condition, Instruction};
use crate::mps_laws::operands;
use crate::mps_routing::{
    candidate_score, chosen_direction, moved, neighbours_swapped, qubit_pair, swaps_needed,
    MpsRoutingMode, RoutingDirection,
};
use crate::statevector_shots::positive_entries;
use crate::truncation::{
    all_kept, condition_end, is_first_outside, is_renumbered, kept_below, lemma_kept_below_bounds,
    lemma_needed_grows, lemma_needed_shape, needed_at, new_number, numbering, removed_below,
    retention, touches_kept, touches_needed, touches_removed, TruncationError,
};

verus! {

proof fn lemma_all_kept_below(keep: Seq<bool>, q: int)
    requires
        all_kept(keep),
        0 <= q <= keep.len(),
    ensures
        kept_below(keep, q) == q,
    decreases q,
{
    if q > 0 {
        lemma_all_kept_below(keep, q - 1);
        assert(keep[q - 1]);
    }
}

/// Where every qubit stays, every instruction stays, and is the same as before.
pub proof fn law_full_numbering_changes_nothing(
    keep: Seq<bool>,
    inst: Instruction,
    new: Instruction,
)
    requires
        all_kept(keep),
        keep.len() <= usize::MAX,
        forall|j: int|
            0 <= j < inst.touched().len() ==> (#[trigger] inst.touched()[j]) < keep.len(),
        is_renumbered(new, inst, numbering(keep)),
    ensures
        same_instruction(new, inst),
        retention(inst.touched(), numbering(keep)) == Ok::<bool, TruncationError>(true),
{
    let touched = inst.touched();
    let remap = numbering(keep);
    assert forall|j: int| 0 <= j < touched.len() implies new_number(
        remap,
        #[trigger] touched[j],
    ) == Some(touched[j]) by {
        lemma_all_kept_below(keep, touched[j] as int);
        assert(keep[touched[j] as int]);
    }
    assert(new.touched() =~= touched);
    assert(!touches_removed(touched, remap));
    if touched.len() > 0 {
        assert(new_number(remap, touched[0]) is Some);
        assert(touches_kept(touched, remap));
    }
}

/// An instruction that goes touches only qubits that go, and one that stays only qubits that
/// stay.
pub proof fn law_instructions_go_with_their_qubits(
    touched: Seq<usize>,
    remap: Seq<Option<usize>>,
    j: int,
)
    requires
        0 <= j < touched.len(),
        retention(touched, remap) is Ok,
    ensures
        retention(touched, remap)->Ok_0 <==> new_number(remap, touched[j]) is Some,
{
    assert(touched[j] < remap.len()) by {
        if touched[j] >= remap.len() {
            lemma_first_outside(touched, remap, j);
        }
    }
    if new_number(remap, touched[j]) is Some {
        assert(touches_kept(touched, remap));
    } else {
        assert(touches_removed(touched, remap));
    }
}

proof fn lemma_first_outside(touched: Seq<usize>, remap: Seq<Option<usize>>, j: int)
    requires
        0 <= j < touched.len(),
        touched[j] >= remap.len(),
    ensures
        retention(touched, remap) is Err,
    decreases j,
{
    if exists|i: int| 0 <= i < j && (#[trigger] touched[i]) >= remap.len() {
        let i = choose|i: int| 0 <= i < j && (#[trigger] touched[i]) >= remap.len();
        lemma_first_outside(touched, remap, i);
    } else {
        assert(is_first_outside(touched, remap, j));
    }
}

/// Every number below the number of qubits that stay is the new number of one of them.
pub proof fn law_new_numbers_leave_no_gap(keep: Seq<bool>, m: usize) -> (q: int)
    requires
        keep.len() <= usize::MAX,
        m < kept_below(keep, keep.len() as int),
    ensures
        0 <= q < keep.len(),
        keep[q],
        numbering(keep)[q] == Some(m),
{
    lemma_number_taken(keep, keep.len() as int, m)
}

proof fn lemma_number_taken(keep: Seq<bool>, count: int, m: usize) -> (q: int)
    requires
        0 <= count <= keep.len() <= usize::MAX,
        m < kept_below(keep, count),
    ensures
        0 <= q < count,
        keep[q],
        numbering(keep)[q] == Some(m),
    decreases count,
{
    if m < kept_below(keep, count - 1) {
        lemma_number_taken(keep, count - 1, m)
    } else {
        lemma_kept_below_bounds(keep, 0, count - 1);
        count - 1
    }
}

/// The list of removed qubits holds exactly those that do not stay, and no qubit is both kept
/// and removed or neither.
pub proof fn law_removed_qubits_are_those_that_go(keep: Seq<bool>, count: int, q: usize)
    requires
        0 <= count <= keep.len() <= usize::MAX,
    ensures
        removed_below(keep, count).contains(q) <==> q < count && !keep[q as int],
        removed_below(keep, count).len() + kept_below(keep, count) == count,
    decreases count,
{
    if count > 0 {
        law_removed_qubits_are_those_that_go(keep, count - 1, q);
        let earlier = removed_below(keep, count - 1);
        if !keep[count - 1] {
            let all = earlier.push((count - 1) as usize);
            assert(all[earlier.len() as int] == count - 1);
            if earlier.contains(q) {
                let i = choose|i: int| 0 <= i < earlier.len() && earlier[i] == q;
                assert(all[i] == q);
            }
            if all.contains(q) {
                let i = choose|i: int| 0 <= i < all.len() && all[i] == q;
                if i < earlier.len() {
                    assert(earlier[i] == q);
                }
            }
        }
    }
}

proof fn lemma_bits_stay_needed(
    instructions: Seq<Instruction>,
    i: int,
    j: int,
    num_qubits: nat,
    num_cbits: nat,
    b: int,
)
    requires
        0 <= i <= j <= instructions.len(),
        0 <= b < needed_at(instructions, j, num_qubits, num_cbits).1.len(),
        needed_at(instructions, j, num_qubits, num_cbits).1[b],
    ensures
        b < needed_at(instructions, i, num_qubits, num_cbits).1.len(),
        needed_at(instructions, i, num_qubits, num_cbits).1[b],
    decreases j - i,
{
    if i < j {
        lemma_bits_stay_needed(instructions, i + 1, j, num_qubits, num_cbits, b);
    }
}

/// A qubit stays whose measurement decides whether something happens to a qubit that is needed
/// afterwards.
pub proof fn law_conditions_keep_what_they_read(
    instructions: Seq<Instruction>,
    i: int,
    j: int,
    qubit: usize,
    cbit: usize,
    condition: Condition,
    op: Box<Instruction>,
    num_qubits: nat,
    num_cbits: nat,
)
    requires
        0 <= i < j < instructions.len(),
        instructions[i] == (Instruction::Measure { qubit, cbit }),
        instructions[j] == (Instruction::Conditional { condition, op }),
        touches_needed(
            op.touched(),
            needed_at(instructions, j + 1, num_qubits, num_cbits).0,
        ),
        condition.creg_base <= cbit < condition_end(condition),
        qubit < num_qubits,
    ensures
        needed_at(instructions, 0, num_qubits, num_cbits).0[qubit as int],
{
    lemma_bits_stay_needed(instructions, i + 1, j, num_qubits, num_cbits, cbit as int);
    lemma_needed_shape(instructions, i + 1, num_qubits, num_cbits);
    assert(seq![qubit][0] == qubit);
    assert(needed_at(instructions, i, num_qubits, num_cbits).0[qubit as int]);
    lemma_needed_grows(instructions, 0, i, num_qubits, num_cbits, qubit as int);
}

/// Bringing two qubits together takes as many swaps of neighbours as are said to be needed:
/// none where they are neighbours, and otherwise one more than from the next place on.
pub proof fn law_moves_are_made_of_swaps(
    p2l: Seq<usize>,
    lo: int,
    hi: int,
    direction: RoutingDirection,
)
    requires
        0 <= lo < hi < p2l.len(),
    ensures
        hi == lo + 1 ==> moved(p2l, lo, hi, direction) == p2l && swaps_needed(lo, hi) == 0,
        hi > lo + 1 ==> ({
            let (next, from, to) = match direction {
                RoutingDirection::MoveHighLeft => (neighbours_swapped(p2l, hi - 1), lo, hi - 1),
                RoutingDirection::MoveLowRight => (neighbours_swapped(p2l, lo), lo + 1, hi),
            };
            &&& moved(p2l, lo, hi, direction) == moved(next, from, to, direction)
            &&& swaps_needed(lo, hi) == swaps_needed(from, to) + 1
        }),
        swaps_needed(lo, hi) == swaps_needed(hi, lo),
{
    if hi == lo + 1 {
        assert(moved(p2l, lo, hi, direction) =~= p2l);
    } else {
        match direction {
            RoutingDirection::MoveHighLeft => {
                assert(moved(p2l, lo, hi, direction) =~= moved(
                    neighbours_swapped(p2l, hi - 1),
                    lo,
                    hi - 1,
                    direction,
                ));
            },
            RoutingDirection::MoveLowRight => {
                assert(moved(p2l, lo, hi, direction) =~= moved(
                    neighbours_swapped(p2l, lo),
                    lo + 1,
                    hi,
                    direction,
                ));
            },
        }
    }
}

/// Looking ahead, no other way of bringing two qubits together needs fewer swaps afterwards than
/// the one that is taken; where both need the same, the higher qubit is moved. Without looking
/// ahead it is always the higher one.
pub proof fn law_chosen_way_needs_fewest_swaps(
    mode: MpsRoutingMode,
    p2l: Seq<usize>,
    pos_a: int,
    pos_b: int,
    ahead: Seq<Instruction>,
    depth: nat,
    other: RoutingDirection,
)
    ensures
        ({
            let chosen = chosen_direction(mode, p2l, pos_a, pos_b, ahead, depth);
            let own = candidate_score(p2l, pos_a, pos_b, chosen, ahead, depth);
            let rival = candidate_score(p2l, pos_a, pos_b, other, ahead, depth);
            &&& mode is Lookahead && swaps_needed(pos_a, pos_b) > 0 ==> own <= rival
            &&& chosen is MoveLowRight && other is MoveHighLeft ==> own < rival
            &&& !(mode is Lookahead) ==> chosen is MoveHighLeft
        }),
{
}

/// The pair that routing looks at is the pair of operands of a two-qubit gate, in their order;
/// a condition does not change it.
pub proof fn law_pairs_are_the_operands(inst: Instruction, condition: Condition)
    requires
        operands(inst) is Some,
    ensures
        qubit_pair(inst) == operands(inst),
        qubit_pair(Instruction::Conditional { condition, op: Box::new(inst) }) == operands(inst),
{
    reveal_with_fuel(qubit_pair, 2);
}

/// The listed probabilities are exactly the positive ones, each at its own place, and their
/// places ascend.
pub proof fn law_positive_probabilities_are_listed(probs: Seq<Complex64>, count: int, at: usize)
    requires
        0 <= count <= probs.len() <= usize::MAX,
    ensures
        positive_entries(probs, count).contains((at, probs[at as int])) <==> at < count
            && real_less(complex_zero(), probs[at as int]),
        forall|i: int|
            0 <= i < positive_entries(probs, count).len() ==> (#[trigger] positive_entries(
                probs,
                count,
            )[i]).0 < count && positive_entries(probs, count)[i].1
                == probs[positive_entries(probs, count)[i].0 as int],
        forall|i: int, j: int|
            0 <= i < j < positive_entries(probs, count).len() ==> (#[trigger] positive_entries(
                probs,
                count,
            )[i]).0 < (#[trigger] positive_entries(probs, count)[j]).0,
    decreases count,
{
    if count > 0 {
        law_positive_probabilities_are_listed(probs, count - 1, at);
        let earlier = positive_entries(probs, count - 1);
        let all = positive_entries(probs, count);
        let entry = (at, probs[at as int]);
        if real_less(complex_zero(), probs[count - 1]) {
            assert(all[earlier.len() as int] == ((count - 1) as usize, probs[count - 1]));
            if earlier.contains(entry) {
                let i = choose|i: int| 0 <= i < earlier.len() && earlier[i] == entry;
                assert(all[i] == entry);
            }
            if all.contains(entry) {
                let i = choose|i: int| 0 <= i < all.len() && all[i] == entry;
                if i < earlier.len() {
                    assert(earlier[i] == entry);
                }
            }
        }
    }
}

} // verus!
