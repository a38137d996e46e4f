//! Capability interfaces for the search framework — a pluggable objective
//! function and a pluggable neighborhood generator — plus the generic
//! `LocalSearch` engine container that the hill-climbing drivers operate on.

use vstd::prelude::*;

verus! {

/// Holds when every possible result of `S::clone` has the same view as the
/// value cloned, so that an engine that duplicates a solution preserves the
/// solution's mathematical model.
pub open spec fn clone_preserves_view<S: View + Clone>() -> bool {
    forall|a: &S, b: S| #[trigger] call_ensures(S::clone, (a,), b) ==> b@ == a@
}

/// An objective function over solutions of type `S` drawn from datasets of
/// type `D`: it scores a solution and produces random feasible solutions.
pub trait Objective<S: View, D> {
    /// The mathematical cost of a solution.
    spec fn spec_cost(&self, solution: S::V) -> int;

    /// Which datasets `random` accepts.
    spec fn data_wf(&self, data: D) -> bool;

    /// What `random` promises of every solution it returns.
    spec fn feasible(&self, data: D, solution: S::V) -> bool;

    /// Score a solution: pure, deterministic, and never negative.
    fn evaluate(&self, solution: &S) -> (cost: u128)
        ensures
            cost == self.spec_cost(solution@),
    ;

    /// Produce a random feasible solution for the dataset.
    fn random(&self, data: &D) -> (solution: S)
        requires
            self.data_wf(*data),
        ensures
            self.feasible(*data, solution@),
    ;
}

/// A neighborhood generator: it enumerates every candidate solution one
/// elementary move away from the input, eagerly and in a fixed order.
pub trait Neighborhood<S: View> {
    /// The exact sequence of neighbors, as views, in generation order.
    spec fn spec_neighbors(&self, solution: S::V) -> Seq<S::V>;

    fn neighbors(&self, solution: &S) -> (result: Vec<S>)
        ensures
            result@.len() == self.spec_neighbors(solution@).len(),
            forall|i: int|
                0 <= i < result@.len() ==> (#[trigger] result@[i])@ == self.spec_neighbors(
                    solution@,
                )[i],
    ;
}

/// A solution is locally optimal when no neighbor has strictly lower cost.
pub open spec fn locally_optimal<S: View, D, O: Objective<S, D>, N: Neighborhood<S>>(
    objective: O,
    neighborhood: N,
    solution: S::V,
) -> bool {
    forall|i: int|
        0 <= i < neighborhood.spec_neighbors(solution).len() ==> objective.spec_cost(
            #[trigger] neighborhood.spec_neighbors(solution)[i],
        ) >= objective.spec_cost(solution)
}

/// Generic container for one local-search run: an objective, a neighborhood,
/// and an optional current solution that must be seeded before a driver runs.
pub struct LocalSearch<S, O, N> where S: View + Clone, N: Neighborhood<S> {
    pub objective: O,
    pub neighborhood: N,
    pub current_solution: Option<S>,
}

impl<S, O, N> LocalSearch<S, O, N> where S: View + Clone, N: Neighborhood<S> {
    /// A fresh engine with no current solution.
    pub fn new(objective: O, neighborhood: N) -> (result: Self)
        ensures
            result.objective == objective,
            result.neighborhood == neighborhood,
            result.current_solution is None,
    {
        Self { objective, neighborhood, current_solution: None }
    }

    /// Seed the engine with the solution the next driver run starts from.
    pub fn set_initial(&mut self, initial: S)
        ensures
            final(self).objective == old(self).objective,
            final(self).neighborhood == old(self).neighborhood,
            final(self).current_solution == Some(initial),
    {
        self.current_solution = Some(initial);
    }
}

} // verus!
