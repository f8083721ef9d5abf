//! Routing of qubits along a matrix product state.
//!
//! Qubits sit at the positions of a line, and a two-qubit gate needs neighbours. Routing
//! brings two qubits together by exchanging neighbours, and keeps track of which qubit is at
//! which position.

use vstd::prelude::*;

use crate::instruction::Instruction;
use crate::text::{lower_text, lowercased, same_text};

verus! {

/// What happens to the order of the qubits.
#[derive(Clone, Copy, Debug, PartialEq, Eq, Structural)]
pub enum MpsRoutingMode {
    /// The order is restored after each gate.
    Restore,
    /// The qubits stay where they were brought.
    Lazy,
    /// The qubits stay where they were brought, and the side is chosen by looking ahead.
    Lookahead,
}

impl MpsRoutingMode {
    /// The name of the mode.
    pub fn as_str(self) -> (r: &'static str)
        ensures
            r@ == match self {
                MpsRoutingMode::Restore => "restore"@,
                MpsRoutingMode::Lazy => "lazy"@,
                MpsRoutingMode::Lookahead => "lookahead"@,
            },
    {
        match self {
            MpsRoutingMode::Restore => "restore",
            MpsRoutingMode::Lazy => "lazy",
            MpsRoutingMode::Lookahead => "lookahead",
        }
    }

    /// Whether qubits stay where they were brought.
    pub fn uses_lazy_ordering(self) -> (r: bool)
        ensures
            r == !(self is Restore),
    {
        match self {
            MpsRoutingMode::Restore => false,
            _ => true,
        }
    }
}

/// Which of two qubits is moved to the other.
#[derive(Clone, Copy, Debug, PartialEq, Eq, Structural)]
pub enum RoutingDirection {
    MoveHighLeft,
    MoveLowRight,
}

/// Whether `l2p` gives the position of each qubit and `p2l` the qubit at each position.
pub open spec fn are_inverse(l2p: Seq<usize>, p2l: Seq<usize>) -> bool {
    &&& l2p.len() == p2l.len()
    &&& forall|l: int|
        0 <= l < l2p.len() ==> (#[trigger] l2p[l]) < p2l.len() && p2l[l2p[l] as int] == l
    &&& forall|p: int|
        0 <= p < p2l.len() ==> (#[trigger] p2l[p]) < l2p.len() && l2p[p2l[p] as int] == p
}

/// The order of the qubits after the ones at `position` and `position + 1` changed places.
pub open spec fn neighbours_swapped(p2l: Seq<usize>, position: int) -> Seq<usize> {
    p2l.update(position, p2l[position + 1]).update(position + 1, p2l[position])
}

/// The order of the qubits after the one at the higher of two positions was moved next to the
/// lower one, or the other way round. The qubits between them move up by one place.
pub open spec fn moved(p2l: Seq<usize>, pos_a: int, pos_b: int, direction: RoutingDirection) -> Seq<
    usize,
> {
    let lo = if pos_a < pos_b {
        pos_a
    } else {
        pos_b
    };
    let hi = if pos_a < pos_b {
        pos_b
    } else {
        pos_a
    };
    Seq::new(
        p2l.len(),
        |p: int|
            match direction {
                RoutingDirection::MoveHighLeft => if p == lo + 1 && p <= hi {
                    p2l[hi]
                } else if lo + 1 < p <= hi {
                    p2l[p - 1]
                } else {
                    p2l[p]
                },
                RoutingDirection::MoveLowRight => if p == hi - 1 && lo <= p {
                    p2l[lo]
                } else if lo <= p < hi - 1 {
                    p2l[p + 1]
                } else {
                    p2l[p]
                },
            },
    )
}

/// Exchanges the qubits at two neighbouring positions.
pub fn simulate_logical_routing_swap(
    logical_to_position: &mut Vec<usize>,
    position_to_logical: &mut Vec<usize>,
    position: usize,
)
    requires
        are_inverse(old(logical_to_position)@, old(position_to_logical)@),
        position + 1 < old(position_to_logical)@.len(),
    ensures
        are_inverse(final(logical_to_position)@, final(position_to_logical)@),
        final(position_to_logical)@ == neighbours_swapped(
            old(position_to_logical)@,
            position as int,
        ),
{
    let ghost l2p = logical_to_position@;
    let ghost p2l = position_to_logical@;
    assert(position_to_logical.len() <= usize::MAX);
    let right_logical: usize = position_to_logical[position];
    let left_logical: usize = position_to_logical[position + 1];
    position_to_logical[position] = left_logical;
    position_to_logical[position + 1] = right_logical;
    logical_to_position[left_logical] = position;
    logical_to_position[right_logical] = position + 1;
    proof {
        let new_l2p = logical_to_position@;
        let new_p2l = position_to_logical@;
        assert(l2p[left_logical as int] == position + 1);
        assert(l2p[right_logical as int] == position);
        assert forall|l: int| 0 <= l < new_l2p.len() implies (#[trigger] new_l2p[l])
            < new_p2l.len() && new_p2l[new_l2p[l] as int] == l by {
            assert(l2p[l] < p2l.len() && p2l[l2p[l] as int] == l);
        }
        assert forall|p: int| 0 <= p < new_p2l.len() implies (#[trigger] new_p2l[p])
            < new_l2p.len() && new_l2p[new_p2l[p] as int] == p by {
            assert(p2l[p] < l2p.len() && l2p[p2l[p] as int] == p);
        }
    }
}

/// Moves one of two qubits next to the other, by exchanging neighbours.
pub fn simulate_routing_direction(
    logical_to_position: &mut Vec<usize>,
    position_to_logical: &mut Vec<usize>,
    pos_a: usize,
    pos_b: usize,
    direction: RoutingDirection,
)
    requires
        are_inverse(old(logical_to_position)@, old(position_to_logical)@),
        pos_a < old(position_to_logical)@.len(),
        pos_b < old(position_to_logical)@.len(),
    ensures
        are_inverse(final(logical_to_position)@, final(position_to_logical)@),
        final(position_to_logical)@ == moved(
            old(position_to_logical)@,
            pos_a as int,
            pos_b as int,
            direction,
        ),
{
    let ghost p2l = position_to_logical@;
    assert(position_to_logical.len() <= usize::MAX);
    let lo: usize = if pos_a < pos_b {
        pos_a
    } else {
        pos_b
    };
    let hi: usize = if pos_a < pos_b {
        pos_b
    } else {
        pos_a
    };
    match direction {
        RoutingDirection::MoveHighLeft => {
            let mut at: usize = hi;
            assert(position_to_logical@ =~= moved(p2l, hi as int, hi as int, direction));
            while at > lo + 1
                invariant
                    lo <= at <= hi,
                    hi < p2l.len() <= usize::MAX,
                    direction is MoveHighLeft,
                    are_inverse(logical_to_position@, position_to_logical@),
                    at > lo ==> position_to_logical@ == moved(
                        p2l,
                        at - 1,
                        hi as int,
                        direction,
                    ),
                    at == lo ==> lo == hi && position_to_logical@ == p2l,
                    position_to_logical@.len() == p2l.len(),
                decreases at,
            {
                let ghost before = position_to_logical@;
                simulate_logical_routing_swap(logical_to_position, position_to_logical, at - 1);
                assert(position_to_logical@ =~= moved(p2l, at - 2, hi as int, direction));
                at = at - 1;
            }
            assert(position_to_logical@ =~= moved(p2l, pos_a as int, pos_b as int, direction));
        },
        RoutingDirection::MoveLowRight => {
            let mut at: usize = lo;
            assert(position_to_logical@ =~= moved(p2l, lo as int, lo + 1, direction));
            while at + 1 < hi
                invariant
                    lo <= at <= hi,
                    hi < p2l.len() <= usize::MAX,
                    direction is MoveLowRight,
                    are_inverse(logical_to_position@, position_to_logical@),
                    position_to_logical@ == moved(p2l, lo as int, at + 1, direction),
                    at == lo || at + 1 <= hi,
                    position_to_logical@.len() == p2l.len(),
                decreases hi - at,
            {
                simulate_logical_routing_swap(logical_to_position, position_to_logical, at);
                assert(position_to_logical@ =~= moved(p2l, lo as int, at + 2, direction));
                at = at + 1;
            }
            assert(position_to_logical@ =~= moved(p2l, pos_a as int, pos_b as int, direction));
        },
    }
}

/// After a qubit was moved, the two qubits sit at neighbouring positions, in their old order.
pub proof fn law_routing_makes_neighbours(
    p2l: Seq<usize>,
    lo: int,
    hi: int,
    direction: RoutingDirection,
)
    requires
        0 <= lo < hi < p2l.len(),
    ensures
        ({
            let at = match direction {
                RoutingDirection::MoveHighLeft => lo,
                RoutingDirection::MoveLowRight => hi - 1,
            };
            let after = moved(p2l, lo, hi, direction);
            &&& after[at] == p2l[lo]
            &&& after[at + 1] == p2l[hi]
            &&& moved(p2l, hi, lo, direction) == after
        }),
{
    assert(moved(p2l, hi, lo, direction) =~= moved(p2l, lo, hi, direction));
}

/// Exchanging the same neighbours twice restores the order.
pub proof fn law_swapping_twice_restores(p2l: Seq<usize>, position: int)
    requires
        0 <= position,
        position + 1 < p2l.len(),
    ensures
        neighbours_swapped(neighbours_swapped(p2l, position), position) == p2l,
{
    assert(neighbours_swapped(neighbours_swapped(p2l, position), position) =~= p2l);
}

/// Whether a named gate between nodes acts on two qubits.
pub open spec fn is_pair_gate(name: Seq<char>) -> bool {
    ||| name == "remote_link_phi_plus"@
    ||| name == "remote_epr"@
    ||| name == "epr"@
    ||| name == "remote_link_psi_minus"@
    ||| name == "remote_link_psi_plus"@
    ||| name == "nonlocal_cz"@
    ||| name == "remote_cz"@
    ||| name == "remote_cx"@
}

/// Whether a named gate between nodes acts on two qubits.
pub fn matches_pair_gate(name: &str) -> (r: bool)
    ensures
        r == is_pair_gate(name@),
{
    same_text(name, "remote_link_phi_plus") || same_text(name, "remote_epr") || same_text(
        name,
        "epr",
    ) || same_text(name, "remote_link_psi_minus") || same_text(name, "remote_link_psi_plus")
        || same_text(name, "nonlocal_cz") || same_text(name, "remote_cz") || same_text(
        name,
        "remote_cx",
    )
}

/// The two qubits of a two-qubit gate; nothing for any other instruction.
pub open spec fn qubit_pair(inst: Instruction) -> Option<(usize, usize)>
    decreases inst,
{
    match inst {
        Instruction::Cx { control, target }
        | Instruction::Cz { control, target }
        | Instruction::Cy { control, target }
        | Instruction::Ch { control, target }
        | Instruction::Csx { control, target }
        | Instruction::Crx { control, target, .. }
        | Instruction::Cry { control, target, .. }
        | Instruction::Crz { control, target, .. }
        | Instruction::Cu1 { control, target, .. }
        | Instruction::Cp { control, target, .. }
        | Instruction::Cu3 { control, target, .. }
        | Instruction::Cu { control, target, .. } => Some((control, target)),
        Instruction::Swap { a, b }
        | Instruction::Rxx { a, b, .. }
        | Instruction::Rzz { a, b, .. } => Some((a, b)),
        Instruction::Gate { name, qubits, .. } => if is_pair_gate(lowercased(name@))
            && qubits@.len() >= 2 {
            Some((qubits@[0], qubits@[1]))
        } else {
            None
        },
        Instruction::Conditional { op, .. } => qubit_pair(*op),
        _ => None,
    }
}

/// The two qubits of a two-qubit gate.
pub fn mps_instruction_qubit_pair(inst: &Instruction) -> (r: Option<(usize, usize)>)
    ensures
        r == qubit_pair(*inst),
    decreases inst,
{
    match inst {
        Instruction::Cx { control, target }
        | Instruction::Cz { control, target }
        | Instruction::Cy { control, target }
        | Instruction::Ch { control, target }
        | Instruction::Csx { control, target }
        | Instruction::Crx { control, target, .. }
        | Instruction::Cry { control, target, .. }
        | Instruction::Crz { control, target, .. }
        | Instruction::Cu1 { control, target, .. }
        | Instruction::Cp { control, target, .. }
        | Instruction::Cu3 { control, target, .. }
        | Instruction::Cu { control, target, .. } => Some((*control, *target)),
        Instruction::Swap { a, b }
        | Instruction::Rxx { a, b, .. }
        | Instruction::Rzz { a, b, .. } => Some((*a, *b)),
        Instruction::Gate { name, qubits, .. } => {
            let lower: String = lower_text(name.as_str());
            if matches_pair_gate(lower.as_str()) && qubits.len() >= 2 {
                Some((qubits[0], qubits[1]))
            } else {
                None
            }
        },
        Instruction::Conditional { op, .. } => mps_instruction_qubit_pair(op),
        _ => None,
    }
}

/// How many swaps bring two positions together.
pub open spec fn swaps_needed(a: int, b: int) -> nat {
    let distance = if a < b {
        b - a
    } else {
        a - b
    };
    if distance >= 1 {
        (distance - 1) as nat
    } else {
        0
    }
}

/// The pair that counts at place `i` of the instructions ahead: that of a two-qubit gate on
/// qubits of the line.
pub open spec fn counted_pair(l2p: Seq<usize>, ahead: Seq<Instruction>, i: int) -> Option<
    (usize, usize),
> {
    match qubit_pair(ahead[i]) {
        Some((left, right)) => if left < l2p.len() && right < l2p.len() {
            Some((left, right))
        } else {
            None
        },
        None => None,
    }
}

/// The number of pairs that count among the first `count` instructions ahead.
pub open spec fn pairs_ahead(l2p: Seq<usize>, ahead: Seq<Instruction>, count: int) -> nat
    decreases count,
{
    if count <= 0 {
        0
    } else {
        pairs_ahead(l2p, ahead, count - 1) + if counted_pair(l2p, ahead, count - 1) is Some {
            1nat
        } else {
            0nat
        }
    }
}

/// The swaps needed by the first `depth` pairs that count among the first `count` instructions
/// ahead.
pub open spec fn swaps_ahead(l2p: Seq<usize>, ahead: Seq<Instruction>, count: int, depth: nat) -> nat
    decreases count,
{
    if count <= 0 {
        0
    } else {
        swaps_ahead(l2p, ahead, count - 1, depth) + match counted_pair(l2p, ahead, count - 1) {
            Some((left, right)) => if pairs_ahead(l2p, ahead, count - 1) < depth {
                swaps_needed(l2p[left as int] as int, l2p[right as int] as int)
            } else {
                0
            },
            None => 0,
        }
    }
}

proof fn lemma_pairs_stay_ahead(l2p: Seq<usize>, ahead: Seq<Instruction>, i: int, j: int, depth: nat)
    requires
        0 <= i <= j,
        pairs_ahead(l2p, ahead, i) >= depth,
    ensures
        pairs_ahead(l2p, ahead, j) >= depth,
        swaps_ahead(l2p, ahead, j, depth) == swaps_ahead(l2p, ahead, i, depth),
    decreases j - i,
{
    if i < j {
        lemma_pairs_stay_ahead(l2p, ahead, i, j - 1, depth);
    }
}

/// The largest number that fits, where a sum is larger.
pub open spec fn capped(value: nat) -> usize {
    if value <= usize::MAX {
        value as usize
    } else {
        usize::MAX
    }
}

/// The distance between two positions.
pub fn position_distance(a: usize, b: usize) -> (r: usize)
    ensures
        r == if a < b {
            b - a
        } else {
            a - b
        },
{
    if a < b {
        b - a
    } else {
        a - b
    }
}

/// Scores an order of the qubits: the swaps that the next `depth` two-qubit gates need.
pub fn score_routing_lookahead(
    logical_to_position: &Vec<usize>,
    lookahead: &[Instruction],
    depth: usize,
) -> (score: usize)
    ensures
        score == capped(
            swaps_ahead(
                logical_to_position@,
                lookahead@,
                lookahead@.len() as int,
                depth as nat,
            ),
        ),
{
    let ghost l2p = logical_to_position@;
    let mut score: usize = 0;
    let mut seen: usize = 0;
    let mut i: usize = 0;
    while i < lookahead.len() && seen < depth
        invariant
            i <= lookahead@.len(),
            l2p == logical_to_position@,
            seen <= depth,
            seen == pairs_ahead(l2p, lookahead@, i as int),
            score == capped(swaps_ahead(l2p, lookahead@, i as int, depth as nat)),
        decreases lookahead@.len() - i,
    {
        match mps_instruction_qubit_pair(&lookahead[i]) {
            Some((left, right)) => {
                if left < logical_to_position.len() && right < logical_to_position.len() {
                    let distance: usize = position_distance(
                        logical_to_position[left],
                        logical_to_position[right],
                    );
                    let needed: usize = if distance >= 1 {
                        distance - 1
                    } else {
                        0
                    };
                    score = score.saturating_add(needed);
                    seen = seen + 1;
                }
            },
            None => {},
        }
        i = i + 1;
    }
    proof {
        if seen >= depth {
            lemma_pairs_stay_ahead(
                l2p,
                lookahead@,
                i as int,
                lookahead@.len() as int,
                depth as nat,
            );
        }
    }
    score
}

/// The positions that belong to an order of the qubits.
pub open spec fn positions_of(p2l: Seq<usize>) -> Seq<usize> {
    choose|l2p: Seq<usize>| are_inverse(l2p, p2l)
}

/// An order of the qubits fixes their positions.
pub proof fn lemma_positions_unique(l2p: Seq<usize>, p2l: Seq<usize>)
    requires
        are_inverse(l2p, p2l),
    ensures
        positions_of(p2l) == l2p,
{
    let other = positions_of(p2l);
    assert(are_inverse(other, p2l));
    assert forall|l: int| 0 <= l < l2p.len() implies other[l] == l2p[l] by {
        assert(other[p2l[l2p[l] as int] as int] == l2p[l]);
    }
    assert(other =~= l2p);
}

/// Scores one of the two ways of bringing two qubits together.
pub fn score_routing_candidate(
    logical_to_position: &Vec<usize>,
    position_to_logical: &Vec<usize>,
    pos_a: usize,
    pos_b: usize,
    direction: RoutingDirection,
    lookahead: &[Instruction],
    depth: usize,
) -> (score: usize)
    requires
        are_inverse(logical_to_position@, position_to_logical@),
        pos_a < position_to_logical@.len(),
        pos_b < position_to_logical@.len(),
    ensures
        score == candidate_score(
            position_to_logical@,
            pos_a as int,
            pos_b as int,
            direction,
            lookahead@,
            depth as nat,
        ),
{
    let mut l2p: Vec<usize> = vstd::slice::slice_to_vec(logical_to_position.as_slice());
    let mut p2l: Vec<usize> = vstd::slice::slice_to_vec(position_to_logical.as_slice());
    simulate_routing_direction(&mut l2p, &mut p2l, pos_a, pos_b, direction);
    proof {
        lemma_positions_unique(l2p@, p2l@);
    }
    score_routing_lookahead(&l2p, lookahead, depth)
}

/// The score of one of the two ways of bringing two qubits together.
pub open spec fn candidate_score(
    p2l: Seq<usize>,
    pos_a: int,
    pos_b: int,
    direction: RoutingDirection,
    ahead: Seq<Instruction>,
    depth: nat,
) -> usize {
    capped(
        swaps_ahead(
            positions_of(moved(p2l, pos_a, pos_b, direction)),
            ahead,
            ahead.len() as int,
            depth,
        ),
    )
}

/// The way of bringing two qubits together that a mode takes. Looking ahead, the lower qubit
/// is moved only where that needs fewer swaps afterwards.
pub open spec fn chosen_direction(
    mode: MpsRoutingMode,
    p2l: Seq<usize>,
    pos_a: int,
    pos_b: int,
    ahead: Seq<Instruction>,
    depth: nat,
) -> RoutingDirection {
    if mode is Lookahead && swaps_needed(pos_a, pos_b) > 0 && candidate_score(
        p2l,
        pos_a,
        pos_b,
        RoutingDirection::MoveLowRight,
        ahead,
        depth,
    ) < candidate_score(p2l, pos_a, pos_b, RoutingDirection::MoveHighLeft, ahead, depth) {
        RoutingDirection::MoveLowRight
    } else {
        RoutingDirection::MoveHighLeft
    }
}

} // verus!
