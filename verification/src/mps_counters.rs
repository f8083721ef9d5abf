//! What a run with a matrix product state did.
//!
//! The counters stop at the largest number that fits.

use vstd::prelude::*;

use crate::mps_kernel::MpsTwoQKernel;
use crate::mps_routing::capped;

verus! {

/// What a run did.
#[derive(Clone, Copy, Debug, PartialEq, Eq, Structural)]
pub struct MpsProfileCounters {
    /// Gates on two qubits.
    pub logical_2q_gates: usize,
    /// Swaps that brought qubits together or back.
    pub routing_swaps: usize,
    /// Applications of a gate to neighbours.
    pub adjacent_2q_applications: usize,
    /// Decompositions.
    pub svd_count: usize,
    /// Applications by a fast kernel.
    pub fast_kernel_applications: usize,
    /// Applications for which no fast kernel was chosen.
    pub fast_kernel_auto_skipped_applications: usize,
    /// Applications by a diagonal kernel.
    pub diagonal_kernel_applications: usize,
    /// Applications by a permuting kernel.
    pub permutation_kernel_applications: usize,
    /// Applications by a dense kernel.
    pub dense_kernel_applications: usize,
    /// Pairs split without a decomposition.
    pub rank1_factorizations: usize,
    /// Decompositions that were not needed.
    pub svd_skipped_count: usize,
    /// The largest bond.
    pub max_observed_bond_dimension: usize,
    /// The sum of the distances between the two qubits of a gate.
    pub total_routed_distance: usize,
    /// The largest of these distances.
    pub max_routed_distance: usize,
    /// Routes chosen by looking ahead.
    pub lookahead_decisions: usize,
    /// Those of them that moved the lower qubit.
    pub lookahead_flipped_routes: usize,
}

/// The larger of two numbers.
pub open spec fn larger(a: usize, b: usize) -> usize {
    if a < b {
        b
    } else {
        a
    }
}

/// The larger of two numbers.
fn larger_of(a: usize, b: usize) -> (r: usize)
    ensures
        r == larger(a, b),
{
    if a < b {
        b
    } else {
        a
    }
}

/// Nothing was done; bonds start with dimension one.
pub open spec fn no_work() -> MpsProfileCounters {
    MpsProfileCounters {
        logical_2q_gates: 0,
        routing_swaps: 0,
        adjacent_2q_applications: 0,
        svd_count: 0,
        fast_kernel_applications: 0,
        fast_kernel_auto_skipped_applications: 0,
        diagonal_kernel_applications: 0,
        permutation_kernel_applications: 0,
        dense_kernel_applications: 0,
        rank1_factorizations: 0,
        svd_skipped_count: 0,
        max_observed_bond_dimension: 1,
        total_routed_distance: 0,
        max_routed_distance: 0,
        lookahead_decisions: 0,
        lookahead_flipped_routes: 0,
    }
}

impl Default for MpsProfileCounters {
    fn default() -> (r: MpsProfileCounters)
        ensures
            r == no_work(),
    {
        MpsProfileCounters {
            logical_2q_gates: 0,
            routing_swaps: 0,
            adjacent_2q_applications: 0,
            svd_count: 0,
            fast_kernel_applications: 0,
            fast_kernel_auto_skipped_applications: 0,
            diagonal_kernel_applications: 0,
            permutation_kernel_applications: 0,
            dense_kernel_applications: 0,
            rank1_factorizations: 0,
            svd_skipped_count: 0,
            max_observed_bond_dimension: 1,
            total_routed_distance: 0,
            max_routed_distance: 0,
            lookahead_decisions: 0,
            lookahead_flipped_routes: 0,
        }
    }
}

impl MpsProfileCounters {
    /// The counters after a gate on two qubits at a distance.
    pub open spec fn after_gate(self, distance: usize) -> MpsProfileCounters {
        MpsProfileCounters {
            logical_2q_gates: capped((self.logical_2q_gates + 1) as nat),
            total_routed_distance: capped((self.total_routed_distance + distance) as nat),
            max_routed_distance: larger(self.max_routed_distance, distance),
            ..self
        }
    }

    /// Counts a gate on two qubits at a distance.
    pub fn note_gate(&mut self, distance: usize)
        ensures
            *final(self) == old(self).after_gate(distance),
    {
        self.logical_2q_gates = self.logical_2q_gates.saturating_add(1);
        self.total_routed_distance = self.total_routed_distance.saturating_add(distance);
        self.max_routed_distance = larger_of(self.max_routed_distance, distance);
    }

    /// The counters after a swap of two neighbours for routing.
    pub open spec fn after_routing_swap(self) -> MpsProfileCounters {
        MpsProfileCounters {
            routing_swaps: capped((self.routing_swaps + 1) as nat),
            ..self
        }
    }

    /// Counts a swap of two neighbours for routing.
    pub fn note_routing_swap(&mut self)
        ensures
            *final(self) == old(self).after_routing_swap(),
    {
        self.routing_swaps = self.routing_swaps.saturating_add(1);
    }

    /// The counters after a gate on two neighbours.
    pub open spec fn after_adjacent(self) -> MpsProfileCounters {
        MpsProfileCounters {
            adjacent_2q_applications: capped((self.adjacent_2q_applications + 1) as nat),
            ..self
        }
    }

    /// Counts a gate on two neighbours.
    pub fn note_adjacent(&mut self)
        ensures
            *final(self) == old(self).after_adjacent(),
    {
        self.adjacent_2q_applications = self.adjacent_2q_applications.saturating_add(1);
    }

    /// The counters after a gate for which no fast kernel was chosen.
    pub open spec fn after_auto_skip(self) -> MpsProfileCounters {
        MpsProfileCounters {
            fast_kernel_auto_skipped_applications: capped((self.fast_kernel_auto_skipped_applications + 1) as nat),
            ..self
        }
    }

    /// Counts a gate for which no fast kernel was chosen.
    pub fn note_auto_skip(&mut self)
        ensures
            *final(self) == old(self).after_auto_skip(),
    {
        self.fast_kernel_auto_skipped_applications = self.fast_kernel_auto_skipped_applications.saturating_add(1);
    }

    /// The counters after a pair that was split without a decomposition.
    pub open spec fn after_split(self) -> MpsProfileCounters {
        MpsProfileCounters {
            rank1_factorizations: capped((self.rank1_factorizations + 1) as nat),
            svd_skipped_count: capped((self.svd_skipped_count + 1) as nat),
            max_observed_bond_dimension: larger(self.max_observed_bond_dimension, 1),
            ..self
        }
    }

    /// Counts a pair that was split without a decomposition.
    pub fn note_split(&mut self)
        ensures
            *final(self) == old(self).after_split(),
    {
        self.rank1_factorizations = self.rank1_factorizations.saturating_add(1);
        self.svd_skipped_count = self.svd_skipped_count.saturating_add(1);
        self.max_observed_bond_dimension = larger_of(self.max_observed_bond_dimension, 1);
    }

    /// The counters after a decomposition that kept `keep` singular values.
    pub open spec fn after_svd(self, keep: usize) -> MpsProfileCounters {
        MpsProfileCounters {
            svd_count: capped((self.svd_count + 1) as nat),
            max_observed_bond_dimension: larger(self.max_observed_bond_dimension, keep),
            ..self
        }
    }

    /// Counts a decomposition that kept `keep` singular values.
    pub fn note_svd(&mut self, keep: usize)
        ensures
            *final(self) == old(self).after_svd(keep),
    {
        self.svd_count = self.svd_count.saturating_add(1);
        self.max_observed_bond_dimension = larger_of(self.max_observed_bond_dimension, keep);
    }

    /// The counters after a route chosen by looking ahead.
    pub open spec fn after_decision(self) -> MpsProfileCounters {
        MpsProfileCounters {
            lookahead_decisions: capped((self.lookahead_decisions + 1) as nat),
            ..self
        }
    }

    /// Counts a route chosen by looking ahead.
    pub fn note_decision(&mut self)
        ensures
            *final(self) == old(self).after_decision(),
    {
        self.lookahead_decisions = self.lookahead_decisions.saturating_add(1);
    }

    /// The counters after a route that moved the lower qubit.
    pub open spec fn after_flip(self) -> MpsProfileCounters {
        MpsProfileCounters {
            lookahead_flipped_routes: capped((self.lookahead_flipped_routes + 1) as nat),
            ..self
        }
    }

    /// Counts a route that moved the lower qubit.
    pub fn note_flip(&mut self)
        ensures
            *final(self) == old(self).after_flip(),
    {
        self.lookahead_flipped_routes = self.lookahead_flipped_routes.saturating_add(1);
    }

    /// The counters after the use of a fast kernel.
    pub open spec fn after_fast(self, kernel: MpsTwoQKernel) -> MpsProfileCounters {
        let used = MpsProfileCounters {
            fast_kernel_applications: capped((self.fast_kernel_applications + 1) as nat),
            ..self
        };
        match kernel {
            MpsTwoQKernel::Diagonal(_) => MpsProfileCounters {
                diagonal_kernel_applications: capped(
                    (self.diagonal_kernel_applications + 1) as nat,
                ),
                ..used
            },
            MpsTwoQKernel::Permutation(_) => MpsProfileCounters {
                permutation_kernel_applications: capped(
                    (self.permutation_kernel_applications + 1) as nat,
                ),
                ..used
            },
            MpsTwoQKernel::Dense => MpsProfileCounters {
                dense_kernel_applications: capped((self.dense_kernel_applications + 1) as nat),
                ..used
            },
        }
    }

    /// Counts the use of a fast kernel.
    pub fn note_fast(&mut self, kernel: MpsTwoQKernel)
        ensures
            *final(self) == old(self).after_fast(kernel),
    {
        self.fast_kernel_applications = self.fast_kernel_applications.saturating_add(1);
        match kernel {
            MpsTwoQKernel::Diagonal(_) => {
                self.diagonal_kernel_applications =
                self.diagonal_kernel_applications.saturating_add(1);
            },
            MpsTwoQKernel::Permutation(_) => {
                self.permutation_kernel_applications =
                self.permutation_kernel_applications.saturating_add(1);
            },
            MpsTwoQKernel::Dense => {
                self.dense_kernel_applications = self.dense_kernel_applications.saturating_add(1);
            },
        }
    }

    /// The counters of two runs together: sums, and the larger of two extremes.
    pub open spec fn merged(self, other: MpsProfileCounters) -> MpsProfileCounters {
        MpsProfileCounters {
            logical_2q_gates: capped(
                (self.logical_2q_gates + other.logical_2q_gates) as nat,
            ),
            routing_swaps: capped(
                (self.routing_swaps + other.routing_swaps) as nat,
            ),
            adjacent_2q_applications: capped(
                (self.adjacent_2q_applications + other.adjacent_2q_applications) as nat,
            ),
            svd_count: capped(
                (self.svd_count + other.svd_count) as nat,
            ),
            fast_kernel_applications: capped(
                (self.fast_kernel_applications + other.fast_kernel_applications) as nat,
            ),
            fast_kernel_auto_skipped_applications: capped(
                (self.fast_kernel_auto_skipped_applications + other.fast_kernel_auto_skipped_applications) as nat,
            ),
            diagonal_kernel_applications: capped(
                (self.diagonal_kernel_applications + other.diagonal_kernel_applications) as nat,
            ),
            permutation_kernel_applications: capped(
                (self.permutation_kernel_applications + other.permutation_kernel_applications) as nat,
            ),
            dense_kernel_applications: capped(
                (self.dense_kernel_applications + other.dense_kernel_applications) as nat,
            ),
            rank1_factorizations: capped(
                (self.rank1_factorizations + other.rank1_factorizations) as nat,
            ),
            svd_skipped_count: capped(
                (self.svd_skipped_count + other.svd_skipped_count) as nat,
            ),
            max_observed_bond_dimension: larger(
                self.max_observed_bond_dimension,
                other.max_observed_bond_dimension,
            ),
            total_routed_distance: capped(
                (self.total_routed_distance + other.total_routed_distance) as nat,
            ),
            max_routed_distance: larger(
                self.max_routed_distance,
                other.max_routed_distance,
            ),
            lookahead_decisions: capped(
                (self.lookahead_decisions + other.lookahead_decisions) as nat,
            ),
            lookahead_flipped_routes: capped(
                (self.lookahead_flipped_routes + other.lookahead_flipped_routes) as nat,
            ),
        }
    }

    /// Adds the counters of another run.
    pub fn merge(&mut self, other: &MpsProfileCounters)
        ensures
            *final(self) == old(self).merged(*other),
    {
        self.logical_2q_gates = self.logical_2q_gates.saturating_add(
            other.logical_2q_gates,
        );
        self.routing_swaps = self.routing_swaps.saturating_add(
            other.routing_swaps,
        );
        self.adjacent_2q_applications = self.adjacent_2q_applications.saturating_add(
            other.adjacent_2q_applications,
        );
        self.svd_count = self.svd_count.saturating_add(
            other.svd_count,
        );
        self.fast_kernel_applications = self.fast_kernel_applications.saturating_add(
            other.fast_kernel_applications,
        );
        self.fast_kernel_auto_skipped_applications = self.fast_kernel_auto_skipped_applications.saturating_add(
            other.fast_kernel_auto_skipped_applications,
        );
        self.diagonal_kernel_applications = self.diagonal_kernel_applications.saturating_add(
            other.diagonal_kernel_applications,
        );
        self.permutation_kernel_applications = self.permutation_kernel_applications.saturating_add(
            other.permutation_kernel_applications,
        );
        self.dense_kernel_applications = self.dense_kernel_applications.saturating_add(
            other.dense_kernel_applications,
        );
        self.rank1_factorizations = self.rank1_factorizations.saturating_add(
            other.rank1_factorizations,
        );
        self.svd_skipped_count = self.svd_skipped_count.saturating_add(
            other.svd_skipped_count,
        );
        self.max_observed_bond_dimension = larger_of(
            self.max_observed_bond_dimension,
            other.max_observed_bond_dimension,
        );
        self.total_routed_distance = self.total_routed_distance.saturating_add(
            other.total_routed_distance,
        );
        self.max_routed_distance = larger_of(
            self.max_routed_distance,
            other.max_routed_distance,
        );
        self.lookahead_decisions = self.lookahead_decisions.saturating_add(
            other.lookahead_decisions,
        );
        self.lookahead_flipped_routes = self.lookahead_flipped_routes.saturating_add(
            other.lookahead_flipped_routes,
        );
    }
}

/// It does not matter in which order the counters of two runs are added.
pub proof fn law_merging_commutes(a: MpsProfileCounters, b: MpsProfileCounters)
    ensures
        a.merged(b) == b.merged(a),
{
}

/// It does not matter how the counters of three runs are grouped when they are added.
pub proof fn law_merging_is_associative(
    a: MpsProfileCounters,
    b: MpsProfileCounters,
    c: MpsProfileCounters,
)
    ensures
        a.merged(b).merged(c) == a.merged(b.merged(c)),
{
}

} // verus!
