//! Two-qubit gates on a matrix product state.
//!
//! Two qubits are brought together by swapping neighbours. Either the order is restored
//! afterwards, or the qubits stay where they were brought.

use vstd::prelude::*;

use crate::gate_error::GateError;
use crate::gates::{is_swap_4, swap_4};
use crate::instruction::Instruction;
use crate::mps::{adjacent_step, same_order, same_settings, Mps};
use crate::mps_counters::MpsProfileCounters;
use crate::mps_kernel::{
    is_reversed_kernel, is_reversed_matrix, is_swap_kernel, kernel_wf, reverse_2q_kernel_order,
    reverse_2q_order, swap_kernel, Matrix4, MpsTwoQKernel,
};
use crate::mps_routing::{
    are_inverse, candidate_score, capped, chosen_direction, moved, neighbours_swapped, position_distance,
    score_routing_candidate, simulate_logical_routing_swap, swaps_needed, MpsRoutingMode,
    RoutingDirection,
};

verus! {

/// The state with other counters.
pub open spec fn with_counters(m: Mps, counters: MpsProfileCounters) -> Mps {
    Mps { counters, ..m }
}

/// Whether a swap of the tensors at `position` and `position + 1` can lead from one state to
/// another.
pub open spec fn physical_swap(
    before: Mps,
    position: int,
    after: Mps,
    res: Result<(), GateError>,
) -> bool {
    exists|swap: Matrix4, kernel: MpsTwoQKernel|
        is_swap_4(swap) && is_swap_kernel(kernel) && #[trigger] adjacent_step(
            with_counters(before, before.counters.after_routing_swap()),
            position,
            swap,
            Some(kernel),
            after,
            res,
        )
}

/// Whether a swap of the qubits at `position` and `position + 1` can lead from one state to
/// another: the tensors are swapped, and the order of the qubits with them.
pub open spec fn logical_swap(
    before: Mps,
    position: int,
    after: Mps,
    res: Result<(), GateError>,
) -> bool {
    exists|mid: Mps| #[trigger]
        physical_swap(before, position, mid, res) && match res {
            Ok(_) => {
                &&& same_settings(mid, after)
                &&& after.tensors@ == mid.tensors@
                &&& after.counters == mid.counters
                &&& after.position_to_logical@ == neighbours_swapped(
                    mid.position_to_logical@,
                    position,
                )
                &&& are_inverse(after.logical_to_position@, after.position_to_logical@)
            },
            Err(_) => after == mid,
        }
}

/// Whether one swap can lead from one state to another; it moves the qubits or only the
/// tensors.
pub open spec fn one_swap(
    moves: bool,
    before: Mps,
    position: int,
    after: Mps,
    res: Result<(), GateError>,
) -> bool {
    if moves {
        logical_swap(before, position, after, res)
    } else {
        physical_swap(before, position, after, res)
    }
}

/// Whether swaps at the positions from `hi - 1` down to `lo` can lead from one state to
/// another.
pub open spec fn swaps_down(moves: bool, before: Mps, hi: int, lo: int, after: Mps) -> bool
    decreases hi - lo,
{
    if hi <= lo {
        after == before
    } else {
        exists|mid: Mps|
            swaps_down(moves, before, hi, lo + 1, mid) && #[trigger] one_swap(
                moves,
                mid,
                lo,
                after,
                Ok::<(), GateError>(()),
            )
    }
}

/// Whether swaps at the positions from `lo` up to `hi - 1` can lead from one state to another.
pub open spec fn swaps_up(moves: bool, before: Mps, lo: int, hi: int, after: Mps) -> bool
    decreases hi - lo,
{
    if hi <= lo {
        after == before
    } else {
        exists|mid: Mps|
            swaps_up(moves, before, lo, hi - 1, mid) && #[trigger] one_swap(
                moves,
                mid,
                hi - 1,
                after,
                Ok::<(), GateError>(()),
            )
    }
}

proof fn lemma_one_more_down(moves: bool, before: Mps, hi: int, lo: int, mid: Mps, after: Mps)
    requires
        lo < hi,
        swaps_down(moves, before, hi, lo + 1, mid),
        one_swap(moves, mid, lo, after, Ok::<(), GateError>(())),
    ensures
        swaps_down(moves, before, hi, lo, after),
{
}

proof fn lemma_one_more_up(moves: bool, before: Mps, lo: int, hi: int, mid: Mps, after: Mps)
    requires
        lo < hi,
        swaps_up(moves, before, lo, hi - 1, mid),
        one_swap(moves, mid, hi - 1, after, Ok::<(), GateError>(())),
    ensures
        swaps_up(moves, before, lo, hi, after),
{
}

/// Whether swaps downwards can end like this: all of them succeed, or one of them fails.
pub open spec fn ends_down(
    moves: bool,
    before: Mps,
    hi: int,
    lo: int,
    after: Mps,
    res: Result<(), GateError>,
) -> bool {
    match res {
        Ok(_) => swaps_down(moves, before, hi, lo, after),
        Err(_) => exists|stop: int, mid: Mps|
            lo <= stop < hi && #[trigger] swaps_down(moves, before, hi, stop + 1, mid) && one_swap(
                moves,
                mid,
                stop,
                after,
                res,
            ),
    }
}

/// Whether swaps upwards can end like this: all of them succeed, or one of them fails.
pub open spec fn ends_up(
    moves: bool,
    before: Mps,
    lo: int,
    hi: int,
    after: Mps,
    res: Result<(), GateError>,
) -> bool {
    match res {
        Ok(_) => swaps_up(moves, before, lo, hi, after),
        Err(_) => exists|stop: int, mid: Mps|
            lo <= stop < hi && #[trigger] swaps_up(moves, before, lo, stop, mid) && one_swap(
                moves,
                mid,
                stop,
                after,
                res,
            ),
    }
}

/// Whether two states differ at most at the positions from `lo` to `hi`.
pub open spec fn same_outside(a: Mps, b: Mps, lo: int, hi: int) -> bool {
    &&& same_settings(a, b)
    &&& a.tensors@.len() == b.tensors@.len()
    &&& forall|i: int|
        0 <= i < a.tensors@.len() && !(lo <= i <= hi) ==> #[trigger] a.tensors@[i] == b.tensors@[i]
}

/// A gate on neighbours changes nothing elsewhere.
proof fn lemma_adjacent_is_local(
    before: Mps,
    q: int,
    mat: Matrix4,
    hint: Option<MpsTwoQKernel>,
    after: Mps,
    res: Result<(), GateError>,
    lo: int,
    hi: int,
)
    requires
        adjacent_step(before, q, mat, hint, after, res),
        0 <= lo <= q,
        q + 1 <= hi < before.tensors@.len(),
    ensures
        same_outside(before, after, lo, hi),
        same_order(before, after),
        after.counters.routing_swaps == before.counters.routing_swaps,
{
}

/// Whether a number of swaps were counted between two states.
pub open spec fn swaps_counted(before: Mps, after: Mps, swaps: int) -> bool {
    after.counters.routing_swaps == capped((before.counters.routing_swaps + swaps) as nat)
}

impl Mps {
    /// Swaps the tensors at `position` and `position + 1`.
    pub fn apply_physical_routing_swap(&mut self, position: usize) -> (res: Result<(), GateError>)
        requires
            old(self).wf(),
            position + 1 < old(self).tensors@.len(),
        ensures
            final(self).wf(),
            physical_swap(*old(self), position as int, *final(self), res),
            same_outside(*old(self), *final(self), position as int, position + 1),
            same_order(*old(self), *final(self)),
            swaps_counted(*old(self), *final(self), 1),
    {
        let ghost before = *self;
        let swap: Matrix4 = swap_4();
        let kernel: MpsTwoQKernel = swap_kernel();
        self.counters.note_routing_swap();
        let ghost counted = *self;
        assert(counted == with_counters(before, before.counters.after_routing_swap()));
        let res: Result<(), GateError> = self.apply_adjacent_2q(position, &swap, Some(kernel));
        proof {
            lemma_adjacent_is_local(
                counted,
                position as int,
                swap,
                Some(kernel),
                *self,
                res,
                position as int,
                position + 1,
            );
        }
        res
    }

    /// Swaps the qubits at `position` and `position + 1`.
    pub fn apply_routing_swap(&mut self, position: usize) -> (res: Result<(), GateError>)
        requires
            old(self).wf(),
            position + 1 < old(self).tensors@.len(),
        ensures
            final(self).wf(),
            logical_swap(*old(self), position as int, *final(self), res),
            same_outside(*old(self), *final(self), position as int, position + 1),
            swaps_counted(*old(self), *final(self), 1),
            res is Ok ==> final(self).position_to_logical@ == neighbours_swapped(
                old(self).position_to_logical@,
                position as int,
            ),
    {
        let ghost before = *self;
        let res: Result<(), GateError> = self.apply_physical_routing_swap(position);
        let ghost mid = *self;
        assert(physical_swap(before, position as int, mid, res));
        if res.is_ok() {
            simulate_logical_routing_swap(
                &mut self.logical_to_position,
                &mut self.position_to_logical,
                position,
            );
        }
        res
    }

    /// Swaps neighbours: the qubits, or only their tensors.
    fn swap_neighbours(&mut self, moves: bool, position: usize) -> (res: Result<(), GateError>)
        requires
            old(self).wf(),
            position + 1 < old(self).tensors@.len(),
        ensures
            final(self).wf(),
            one_swap(moves, *old(self), position as int, *final(self), res),
            same_outside(*old(self), *final(self), position as int, position + 1),
            swaps_counted(*old(self), *final(self), 1),
            !moves ==> same_order(*old(self), *final(self)),
            moves && res is Ok ==> final(self).position_to_logical@ == neighbours_swapped(
                old(self).position_to_logical@,
                position as int,
            ),
    {
        if moves {
            self.apply_routing_swap(position)
        } else {
            self.apply_physical_routing_swap(position)
        }
    }

    /// Swaps neighbours at the positions from `hi - 1` down to `lo`.
    fn swap_down(&mut self, moves: bool, hi: usize, lo: usize) -> (res: Result<(), GateError>)
        requires
            old(self).wf(),
            1 <= lo <= hi < old(self).tensors@.len(),
        ensures
            final(self).wf(),
            ends_down(moves, *old(self), hi as int, lo as int, *final(self), res),
            same_outside(*old(self), *final(self), lo as int, hi as int),
            res is Ok ==> swaps_counted(*old(self), *final(self), hi - lo),
            !moves ==> same_order(*old(self), *final(self)),
            moves && res is Ok ==> final(self).position_to_logical@ == moved(
                old(self).position_to_logical@,
                lo - 1,
                hi as int,
                RoutingDirection::MoveHighLeft,
            ),
    {
        let ghost before = *self;
        let ghost p2l = self.position_to_logical@;
        let mut at: usize = hi;
        assert(p2l =~= moved(p2l, hi - 1, hi as int, RoutingDirection::MoveHighLeft));
        while at > lo
            invariant
                self.wf(),
                before == *old(self),
                p2l == before.position_to_logical@,
                p2l.len() == before.tensors@.len(),
                1 <= lo <= at <= hi,
                hi < before.tensors@.len(),
                swaps_down(moves, before, hi as int, at as int, *self),
                swaps_counted(before, *self, hi - at),
                same_outside(before, *self, lo as int, hi as int),
                !moves ==> same_order(before, *self),
                moves ==> self.position_to_logical@ == moved(
                    p2l,
                    at - 1,
                    hi as int,
                    RoutingDirection::MoveHighLeft,
                ),
            decreases at,
        {
            let ghost mid = *self;
            let res: Result<(), GateError> = self.swap_neighbours(moves, at - 1);
            assert(swaps_down(moves, before, hi as int, (at - 1) + 1, mid));
            if res.is_err() {
                return res;
            }
            proof {
                let unit: () = res->Ok_0;
                assert(unit == ());
                assert(res == Ok::<(), GateError>(()));
                lemma_one_more_down(moves, before, hi as int, at - 1, mid, *self);
                if moves {
                    assert(self.position_to_logical@ =~= moved(
                        p2l,
                        at - 2,
                        hi as int,
                        RoutingDirection::MoveHighLeft,
                    ));
                }
            }
            at = at - 1;
        }
        Ok(())
    }

    /// Swaps neighbours at the positions from `lo` up to `hi - 1`.
    fn swap_up(&mut self, moves: bool, lo: usize, hi: usize) -> (res: Result<(), GateError>)
        requires
            old(self).wf(),
            lo <= hi < old(self).tensors@.len(),
        ensures
            final(self).wf(),
            ends_up(moves, *old(self), lo as int, hi as int, *final(self), res),
            same_outside(*old(self), *final(self), lo as int, hi as int),
            res is Ok ==> swaps_counted(*old(self), *final(self), hi - lo),
            !moves ==> same_order(*old(self), *final(self)),
            moves && res is Ok ==> final(self).position_to_logical@ == moved(
                old(self).position_to_logical@,
                lo as int,
                hi + 1,
                RoutingDirection::MoveLowRight,
            ),
    {
        let ghost before = *self;
        let ghost p2l = self.position_to_logical@;
        let mut at: usize = lo;
        assert(p2l =~= moved(p2l, lo as int, lo + 1, RoutingDirection::MoveLowRight));
        while at < hi
            invariant
                self.wf(),
                before == *old(self),
                p2l == before.position_to_logical@,
                p2l.len() == before.tensors@.len(),
                lo <= at <= hi,
                hi < before.tensors@.len(),
                swaps_up(moves, before, lo as int, at as int, *self),
                swaps_counted(before, *self, at - lo),
                same_outside(before, *self, lo as int, hi as int),
                !moves ==> same_order(before, *self),
                moves ==> self.position_to_logical@ == moved(
                    p2l,
                    lo as int,
                    at + 1,
                    RoutingDirection::MoveLowRight,
                ),
            decreases hi - at,
        {
            let ghost mid = *self;
            let res: Result<(), GateError> = self.swap_neighbours(moves, at);
            assert(swaps_up(moves, before, lo as int, (at + 1) - 1, mid));
            if res.is_err() {
                return res;
            }
            proof {
                let unit: () = res->Ok_0;
                assert(unit == ());
                assert(res == Ok::<(), GateError>(()));
                lemma_one_more_up(moves, before, lo as int, at + 1, mid, *self);
                if moves {
                    assert(self.position_to_logical@ =~= moved(
                        p2l,
                        lo as int,
                        at + 2,
                        RoutingDirection::MoveLowRight,
                    ));
                }
            }
            at = at + 1;
        }
        Ok(())
    }
}

/// Whether `gate` and `gate_hint` are a gate as its qubits stand: exchanged where the first one
/// stands to the right of the second.
pub open spec fn is_oriented(
    pos_a: int,
    pos_b: int,
    mat: Matrix4,
    hint: Option<MpsTwoQKernel>,
    gate: Matrix4,
    gate_hint: Option<MpsTwoQKernel>,
) -> bool {
    if pos_a < pos_b {
        gate == mat && gate_hint == hint
    } else {
        is_reversed_matrix(mat, gate) && match (hint, gate_hint) {
            (Some(kernel), Some(reversed)) => is_reversed_kernel(kernel, reversed),
            (None, None) => true,
            _ => false,
        }
    }
}

/// The lower of two positions.
pub open spec fn lower_of(a: int, b: int) -> int {
    if a < b {
        a
    } else {
        b
    }
}

/// The higher of two positions.
pub open spec fn higher_of(a: int, b: int) -> int {
    if a < b {
        b
    } else {
        a
    }
}

/// Whether a gate on neighbours, and swaps upwards after it, can end like this.
pub open spec fn gate_and_back(
    before: Mps,
    lo: int,
    hi: int,
    gate: Matrix4,
    hint: Option<MpsTwoQKernel>,
    after: Mps,
    res: Result<(), GateError>,
) -> bool {
    exists|mid: Mps, r: Result<(), GateError>| #[trigger]
        adjacent_step(before, lo, gate, hint, mid, r) && match r {
            Ok(_) => ends_up(false, mid, lo + 1, hi, after, res),
            Err(_) => after == mid && res == r,
        }
}

/// Whether a gate that restores the order can end like this, when the swaps downwards ended
/// with `mid` and `r`.
pub open spec fn restoring_route(
    before: Mps,
    lo: int,
    hi: int,
    gate: Matrix4,
    hint: Option<MpsTwoQKernel>,
    mid: Mps,
    r: Result<(), GateError>,
    after: Mps,
    res: Result<(), GateError>,
) -> bool {
    &&& ends_down(false, before, hi, lo + 1, mid, r)
    &&& match r {
        Ok(_) => gate_and_back(mid, lo, hi, gate, hint, after, res),
        Err(_) => after == mid && res == r,
    }
}

/// Whether a gate that restores the order can end like this: the tensor of the higher qubit is
/// swapped down, both neighbours are acted on, and the tensor is swapped back.
pub open spec fn restoring_step(
    before: Mps,
    pos_a: int,
    pos_b: int,
    mat: Matrix4,
    hint: Option<MpsTwoQKernel>,
    after: Mps,
    res: Result<(), GateError>,
) -> bool {
    exists|
        gate: Matrix4,
        gate_hint: Option<MpsTwoQKernel>,
        mid: Mps,
        r: Result<(), GateError>,
    |
        is_oriented(pos_a, pos_b, mat, hint, gate, gate_hint) && #[trigger] restoring_route(
            before,
            lower_of(pos_a, pos_b),
            higher_of(pos_a, pos_b),
            gate,
            gate_hint,
            mid,
            r,
            after,
            res,
        )
}

/// Whether the qubits at two positions can be brought together like this.
pub open spec fn brings_together(
    before: Mps,
    lo: int,
    hi: int,
    direction: RoutingDirection,
    after: Mps,
    res: Result<(), GateError>,
) -> bool {
    match direction {
        RoutingDirection::MoveHighLeft => ends_down(true, before, hi, lo + 1, after, res),
        RoutingDirection::MoveLowRight => ends_up(true, before, lo, hi - 1, after, res),
    }
}

/// The left one of the two positions at which the qubits meet.
pub open spec fn meeting_point(lo: int, hi: int, direction: RoutingDirection) -> int {
    match direction {
        RoutingDirection::MoveHighLeft => lo,
        RoutingDirection::MoveLowRight => hi - 1,
    }
}

/// Whether a gate that leaves the qubits where they were brought can end like this, when
/// bringing them together ended with `mid` and `r`.
pub open spec fn lazy_route(
    before: Mps,
    lo: int,
    hi: int,
    gate: Matrix4,
    direction: RoutingDirection,
    hint: Option<MpsTwoQKernel>,
    mid: Mps,
    r: Result<(), GateError>,
    after: Mps,
    res: Result<(), GateError>,
) -> bool {
    &&& brings_together(before, lo, hi, direction, mid, r)
    &&& match r {
        Ok(_) => adjacent_step(mid, meeting_point(lo, hi, direction), gate, hint, after, res),
        Err(_) => after == mid && res == r,
    }
}

/// Whether a gate that leaves the qubits where they were brought can end like this.
pub open spec fn lazy_step(
    before: Mps,
    pos_a: int,
    pos_b: int,
    mat: Matrix4,
    direction: RoutingDirection,
    hint: Option<MpsTwoQKernel>,
    after: Mps,
    res: Result<(), GateError>,
) -> bool {
    exists|
        gate: Matrix4,
        gate_hint: Option<MpsTwoQKernel>,
        mid: Mps,
        r: Result<(), GateError>,
    |
        is_oriented(pos_a, pos_b, mat, hint, gate, gate_hint) && #[trigger] lazy_route(
            before,
            lower_of(pos_a, pos_b),
            higher_of(pos_a, pos_b),
            gate,
            direction,
            gate_hint,
            mid,
            r,
            after,
            res,
        )
}

/// The distance between two positions.
pub open spec fn distance(a: int, b: int) -> usize {
    (higher_of(a, b) - lower_of(a, b)) as usize
}

/// The counters after a route was chosen by looking ahead.
pub open spec fn counters_routed(
    c: MpsProfileCounters,
    direction: RoutingDirection,
) -> MpsProfileCounters {
    match direction {
        RoutingDirection::MoveHighLeft => c.after_decision(),
        RoutingDirection::MoveLowRight => c.after_decision().after_flip(),
    }
}

/// Whether a gate whose route is chosen by looking ahead can end like this.
pub open spec fn lookahead_step(
    before: Mps,
    pos_a: int,
    pos_b: int,
    mat: Matrix4,
    ahead: Seq<Instruction>,
    hint: Option<MpsTwoQKernel>,
    after: Mps,
    res: Result<(), GateError>,
) -> bool {
    if swaps_needed(pos_a, pos_b) == 0 {
        lazy_step(
            before,
            pos_a,
            pos_b,
            mat,
            RoutingDirection::MoveHighLeft,
            hint,
            after,
            res,
        )
    } else {
        let direction = chosen_direction(
            MpsRoutingMode::Lookahead,
            before.position_to_logical@,
            pos_a,
            pos_b,
            ahead,
            before.config.lookahead_depth as nat,
        );
        lazy_step(
            with_counters(before, counters_routed(before.counters, direction)),
            pos_a,
            pos_b,
            mat,
            direction,
            hint,
            after,
            res,
        )
    }
}

/// Whether a two-qubit gate can lead from one state to another. A gate on a qubit and itself
/// does nothing.
pub open spec fn two_qubit_step(
    before: Mps,
    a: int,
    b: int,
    mat: Matrix4,
    ahead: Seq<Instruction>,
    hint: Option<MpsTwoQKernel>,
    after: Mps,
    res: Result<(), GateError>,
) -> bool {
    let pos_a = before.logical_to_position@[a] as int;
    let pos_b = before.logical_to_position@[b] as int;
    let counted = with_counters(before, before.counters.after_gate(distance(pos_a, pos_b)));
    if a == b {
        after == before && res is Ok
    } else {
        match before.config.routing_mode {
            MpsRoutingMode::Restore => restoring_step(
                counted,
                pos_a,
                pos_b,
                mat,
                hint,
                after,
                res,
            ),
            MpsRoutingMode::Lazy => lazy_step(
                counted,
                pos_a,
                pos_b,
                mat,
                RoutingDirection::MoveHighLeft,
                hint,
                after,
                res,
            ),
            MpsRoutingMode::Lookahead => lookahead_step(
                counted,
                pos_a,
                pos_b,
                mat,
                ahead,
                hint,
                after,
                res,
            ),
        }
    }
}

/// The order of the qubits after a two-qubit gate that succeeded: as before where it is
/// restored, and with one of the qubits moved to the other otherwise.
pub open spec fn order_after(before: Mps, a: int, b: int, ahead: Seq<Instruction>) -> Seq<usize> {
    let pos_a = before.logical_to_position@[a] as int;
    let pos_b = before.logical_to_position@[b] as int;
    if a == b || before.config.routing_mode is Restore {
        before.position_to_logical@
    } else {
        moved(
            before.position_to_logical@,
            pos_a,
            pos_b,
            chosen_direction(
                before.config.routing_mode,
                before.position_to_logical@,
                pos_a,
                pos_b,
                ahead,
                before.config.lookahead_depth as nat,
            ),
        )
    }
}

/// The number of swaps that a two-qubit gate takes: those that bring the qubits together, and as
/// many again where the order is restored.
pub open spec fn swap_cost(before: Mps, a: int, b: int) -> int {
    let swaps = swaps_needed(
        before.logical_to_position@[a] as int,
        before.logical_to_position@[b] as int,
    );
    if a == b {
        0
    } else if before.config.routing_mode is Restore {
        2 * swaps as int
    } else {
        swaps as int
    }
}

/// A gate, and its kernel if it has one, as its qubits stand.
fn orient(pos_a: usize, pos_b: usize, mat: &Matrix4, hint: Option<MpsTwoQKernel>) -> (r: (
    Matrix4,
    Option<MpsTwoQKernel>,
))
    requires
        hint matches Some(k) ==> kernel_wf(k),
    ensures
        is_oriented(pos_a as int, pos_b as int, *mat, hint, r.0, r.1),
        r.1 matches Some(k) ==> kernel_wf(k),
{
    if pos_a < pos_b {
        (*mat, hint)
    } else {
        let gate: Matrix4 = reverse_2q_order(mat);
        match hint {
            Some(kernel) => (gate, Some(reverse_2q_kernel_order(kernel))),
            None => (gate, None),
        }
    }
}

impl Mps {
    /// Applies a gate to the qubits at two positions, and restores the order.
    pub fn apply_2q_restoring_order(
        &mut self,
        pos_a: usize,
        pos_b: usize,
        mat: &Matrix4,
        kernel_hint: Option<MpsTwoQKernel>,
    ) -> (res: Result<(), GateError>)
        requires
            old(self).wf(),
            pos_a < old(self).tensors@.len(),
            pos_b < old(self).tensors@.len(),
            pos_a != pos_b,
            kernel_hint matches Some(k) ==> kernel_wf(k),
        ensures
            final(self).wf(),
            restoring_step(
                *old(self),
                pos_a as int,
                pos_b as int,
                *mat,
                kernel_hint,
                *final(self),
                res,
            ),
            same_order(*old(self), *final(self)),
            res is Ok ==> swaps_counted(
                *old(self),
                *final(self),
                2 * swaps_needed(pos_a as int, pos_b as int) as int,
            ),
            same_outside(
                *old(self),
                *final(self),
                lower_of(pos_a as int, pos_b as int),
                higher_of(pos_a as int, pos_b as int),
            ),
    {
        let ghost before = *self;
        assert(self.tensors.len() <= usize::MAX);
        let lo: usize = if pos_a < pos_b {
            pos_a
        } else {
            pos_b
        };
        let hi: usize = if pos_a < pos_b {
            pos_b
        } else {
            pos_a
        };
        let (gate, gate_hint): (Matrix4, Option<MpsTwoQKernel>) = orient(
            pos_a,
            pos_b,
            mat,
            kernel_hint,
        );
        let r: Result<(), GateError> = self.swap_down(false, hi, lo + 1);
        let ghost mid = *self;
        let ghost l = lower_of(pos_a as int, pos_b as int);
        let ghost h = higher_of(pos_a as int, pos_b as int);
        if r.is_err() {
            assert(restoring_route(before, l, h, gate, gate_hint, mid, r, mid, r));
            return r;
        }
        let s: Result<(), GateError> = self.apply_adjacent_2q(lo, &gate, gate_hint);
        let ghost there = *self;
        proof {
            lemma_adjacent_is_local(
                mid,
                lo as int,
                gate,
                gate_hint,
                there,
                s,
                lo as int,
                hi as int,
            );
        }
        if s.is_err() {
            assert(gate_and_back(mid, l, h, gate, gate_hint, there, s));
            assert(restoring_route(before, l, h, gate, gate_hint, mid, r, there, s));
            return s;
        }
        let t: Result<(), GateError> = self.swap_up(false, lo + 1, hi);
        assert(gate_and_back(mid, l, h, gate, gate_hint, *self, t));
        assert(restoring_route(before, l, h, gate, gate_hint, mid, r, *self, t));
        t
    }

    /// Applies a gate to the qubits at two positions, and leaves them where they were brought.
    pub fn apply_2q_lazy(
        &mut self,
        pos_a: usize,
        pos_b: usize,
        mat: &Matrix4,
        direction: RoutingDirection,
        kernel_hint: Option<MpsTwoQKernel>,
    ) -> (res: Result<(), GateError>)
        requires
            old(self).wf(),
            pos_a < old(self).tensors@.len(),
            pos_b < old(self).tensors@.len(),
            pos_a != pos_b,
            kernel_hint matches Some(k) ==> kernel_wf(k),
        ensures
            final(self).wf(),
            lazy_step(
                *old(self),
                pos_a as int,
                pos_b as int,
                *mat,
                direction,
                kernel_hint,
                *final(self),
                res,
            ),
            res is Ok ==> final(self).position_to_logical@ == moved(
                old(self).position_to_logical@,
                pos_a as int,
                pos_b as int,
                direction,
            ),
            res is Ok ==> swaps_counted(
                *old(self),
                *final(self),
                swaps_needed(pos_a as int, pos_b as int) as int,
            ),
            same_outside(
                *old(self),
                *final(self),
                lower_of(pos_a as int, pos_b as int),
                higher_of(pos_a as int, pos_b as int),
            ),
    {
        let ghost before = *self;
        let ghost p2l = self.position_to_logical@;
        assert(self.tensors.len() <= usize::MAX);
        let lo: usize = if pos_a < pos_b {
            pos_a
        } else {
            pos_b
        };
        let hi: usize = if pos_a < pos_b {
            pos_b
        } else {
            pos_a
        };
        let (gate, gate_hint): (Matrix4, Option<MpsTwoQKernel>) = orient(
            pos_a,
            pos_b,
            mat,
            kernel_hint,
        );
        let r: Result<(), GateError> = match direction {
            RoutingDirection::MoveHighLeft => self.swap_down(true, hi, lo + 1),
            RoutingDirection::MoveLowRight => self.swap_up(true, lo, hi - 1),
        };
        let at: usize = match direction {
            RoutingDirection::MoveHighLeft => lo,
            RoutingDirection::MoveLowRight => hi - 1,
        };
        let ghost mid = *self;
        let ghost l = lower_of(pos_a as int, pos_b as int);
        let ghost h = higher_of(pos_a as int, pos_b as int);
        assert(same_outside(before, mid, l, h));
        if r.is_err() {
            assert(lazy_route(before, l, h, gate, direction, gate_hint, mid, r, mid, r));
            return r;
        }
        assert(mid.position_to_logical@ =~= moved(p2l, pos_a as int, pos_b as int, direction));
        let s: Result<(), GateError> = self.apply_adjacent_2q(at, &gate, gate_hint);
        proof {
            lemma_adjacent_is_local(
                mid,
                at as int,
                gate,
                gate_hint,
                *self,
                s,
                lo as int,
                hi as int,
            );
        }
        assert(lazy_route(before, l, h, gate, direction, gate_hint, mid, r, *self, s));
        s
    }

    /// Applies a gate to the qubits at two positions, and leaves them where they were brought.
    /// The way is chosen by what the next gates need.
    pub fn apply_2q_lookahead(
        &mut self,
        pos_a: usize,
        pos_b: usize,
        mat: &Matrix4,
        lookahead: &[Instruction],
        kernel_hint: Option<MpsTwoQKernel>,
    ) -> (res: Result<(), GateError>)
        requires
            old(self).wf(),
            pos_a < old(self).tensors@.len(),
            pos_b < old(self).tensors@.len(),
            pos_a != pos_b,
            kernel_hint matches Some(k) ==> kernel_wf(k),
        ensures
            final(self).wf(),
            lookahead_step(
                *old(self),
                pos_a as int,
                pos_b as int,
                *mat,
                lookahead@,
                kernel_hint,
                *final(self),
                res,
            ),
            res is Ok ==> final(self).position_to_logical@ == moved(
                old(self).position_to_logical@,
                pos_a as int,
                pos_b as int,
                chosen_direction(
                    MpsRoutingMode::Lookahead,
                    old(self).position_to_logical@,
                    pos_a as int,
                    pos_b as int,
                    lookahead@,
                    old(self).config.lookahead_depth as nat,
                ),
            ),
            res is Ok ==> swaps_counted(
                *old(self),
                *final(self),
                swaps_needed(pos_a as int, pos_b as int) as int,
            ),
            same_outside(
                *old(self),
                *final(self),
                lower_of(pos_a as int, pos_b as int),
                higher_of(pos_a as int, pos_b as int),
            ),
    {
        let ghost before = *self;
        if position_distance(pos_a, pos_b) <= 1 {
            return self.apply_2q_lazy(
                pos_a,
                pos_b,
                mat,
                RoutingDirection::MoveHighLeft,
                kernel_hint,
            );
        }
        self.counters.note_decision();
        let high_left_score: usize = self.score_routing_candidate(
            pos_a,
            pos_b,
            RoutingDirection::MoveHighLeft,
            lookahead,
        );
        let low_right_score: usize = self.score_routing_candidate(
            pos_a,
            pos_b,
            RoutingDirection::MoveLowRight,
            lookahead,
        );
        let direction: RoutingDirection = if low_right_score < high_left_score {
            self.counters.note_flip();
            RoutingDirection::MoveLowRight
        } else {
            RoutingDirection::MoveHighLeft
        };
        assert(*self == with_counters(before, counters_routed(before.counters, direction)));
        self.apply_2q_lazy(pos_a, pos_b, mat, direction, kernel_hint)
    }

    /// Scores one of the two ways of bringing two qubits together.
    fn score_routing_candidate(
        &self,
        pos_a: usize,
        pos_b: usize,
        direction: RoutingDirection,
        lookahead: &[Instruction],
    ) -> (score: usize)
        requires
            self.wf(),
            pos_a < self.tensors@.len(),
            pos_b < self.tensors@.len(),
        ensures
            score == candidate_score(
                self.position_to_logical@,
                pos_a as int,
                pos_b as int,
                direction,
                lookahead@,
                self.config.lookahead_depth as nat,
            ),
    {
        score_routing_candidate(
            &self.logical_to_position,
            &self.position_to_logical,
            pos_a,
            pos_b,
            direction,
            lookahead,
            self.config.lookahead_depth,
        )
    }

    /// Applies a gate to two qubits.
    pub fn apply_2q(&mut self, a: usize, b: usize, mat: &Matrix4, lookahead: &[Instruction]) -> (res:
        Result<(), GateError>)
        requires
            old(self).wf(),
            a < old(self).tensors@.len(),
            b < old(self).tensors@.len(),
        ensures
            final(self).wf(),
            two_qubit_step(
                *old(self),
                a as int,
                b as int,
                *mat,
                lookahead@,
                None,
                *final(self),
                res,
            ),
            same_settings(*old(self), *final(self)),
            final(self).tensors@.len() == old(self).tensors@.len(),
            res is Ok ==> final(self).position_to_logical@ == order_after(
                *old(self),
                a as int,
                b as int,
                lookahead@,
            ),
            res is Ok ==> swaps_counted(
                *old(self),
                *final(self),
                swap_cost(*old(self), a as int, b as int),
            ),
    {
        self.apply_2q_with_kernel_hint(a, b, mat, lookahead, None)
    }

    /// Applies a gate to two qubits. Its kernel may be known beforehand.
    pub fn apply_2q_with_kernel_hint(
        &mut self,
        a: usize,
        b: usize,
        mat: &Matrix4,
        lookahead: &[Instruction],
        kernel_hint: Option<MpsTwoQKernel>,
    ) -> (res: Result<(), GateError>)
        requires
            old(self).wf(),
            a < old(self).tensors@.len(),
            b < old(self).tensors@.len(),
            kernel_hint matches Some(k) ==> kernel_wf(k),
        ensures
            final(self).wf(),
            two_qubit_step(
                *old(self),
                a as int,
                b as int,
                *mat,
                lookahead@,
                kernel_hint,
                *final(self),
                res,
            ),
            same_settings(*old(self), *final(self)),
            final(self).tensors@.len() == old(self).tensors@.len(),
            res is Ok ==> final(self).position_to_logical@ == order_after(
                *old(self),
                a as int,
                b as int,
                lookahead@,
            ),
            res is Ok ==> swaps_counted(
                *old(self),
                *final(self),
                swap_cost(*old(self), a as int, b as int),
            ),
    {
        if a == b {
            return Ok(());
        }
        let ghost before = *self;
        let pos_a: usize = self.logical_to_position[a];
        let pos_b: usize = self.logical_to_position[b];
        assert(pos_a != pos_b) by {
            assert(self.position_to_logical@[pos_a as int] == a);
            assert(self.position_to_logical@[pos_b as int] == b);
        }
        let routed_distance: usize = position_distance(pos_a, pos_b);
        self.counters.note_gate(routed_distance);
        let ghost counted = with_counters(
            before,
            before.counters.after_gate(distance(pos_a as int, pos_b as int)),
        );
        assert(*self == counted);
        match self.config.routing_mode {
            MpsRoutingMode::Restore => self.apply_2q_restoring_order(
                pos_a,
                pos_b,
                mat,
                kernel_hint,
            ),
            MpsRoutingMode::Lazy => self.apply_2q_lazy(
                pos_a,
                pos_b,
                mat,
                RoutingDirection::MoveHighLeft,
                kernel_hint,
            ),
            MpsRoutingMode::Lookahead => self.apply_2q_lookahead(
                pos_a,
                pos_b,
                mat,
                lookahead,
                kernel_hint,
            ),
        }
    }
}

} // verus!
