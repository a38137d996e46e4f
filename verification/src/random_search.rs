//! Random sampling with duplicate rejection: draw random solutions, reject
//! any solution seen before in this run, and keep the cheapest draw.

use vstd::prelude::*;
use vstd::std_specs::cmp::PartialEqSpec;
use crate::definitions::{clone_preserves_view, Objective};

verus! {

/// Scan the visited-set for an entry that compares equal to the candidate.
fn contains_solution<S: PartialEq>(space: &Vec<S>, candidate: &S) -> (found: bool)
    requires
        S::obeys_eq_spec(),
    ensures
        found == exists|k: int|
            0 <= k < space@.len() && (#[trigger] space@[k]).eq_spec(candidate),
{
    let mut k: usize = 0;
    while k < space.len()
        invariant
            k <= space@.len(),
            S::obeys_eq_spec(),
            forall|t: int| 0 <= t < k ==> !(#[trigger] space@[t]).eq_spec(candidate),
        decreases space@.len() - k,
    {
        if space[k] == *candidate {
            proof {
                assert((space@[k as int]).eq_spec(candidate));
            }
            return true;
        }
        k += 1;
    }
    false
}

/// Random-sampling engine: the current solution, the objective, and the
/// history of every distinct solution generated so far in this run.
pub struct RandomSearch<S, O> where S: View + Clone + PartialEq {
    current_solution: S,
    objective: O,
    used_space: Vec<S>,
}

impl<S, O> RandomSearch<S, O> where S: View + Clone + PartialEq {
    /// The engine's current solution: the last one generated.
    pub closed spec fn spec_current(self) -> S {
        self.current_solution
    }

    /// The engine's objective.
    pub closed spec fn spec_objective(self) -> O {
        self.objective
    }

    /// The visited-set: every solution generated so far, in generation order.
    pub closed spec fn spec_used(self) -> Seq<S> {
        self.used_space@
    }

    /// The visited-set never holds two entries that compare equal, and the
    /// current solution is always the most recent entry.
    pub open spec fn wf(self) -> bool {
        &&& 1 <= self.spec_used().len()
        &&& self.spec_used().last()@ == self.spec_current()@
        &&& forall|i: int, j: int|
            #![trigger self.spec_used()[i], self.spec_used()[j]]
            0 <= i < j < self.spec_used().len() ==> !self.spec_used()[i].eq_spec(
                &self.spec_used()[j],
            )
    }

    /// Construct an engine: draw one random solution, seed the visited-set
    /// with it, and make it current.
    pub fn new<D>(objective: O, data: &D) -> (result: Self) where O: Objective<S, D>
        requires
            objective.data_wf(*data),
            clone_preserves_view::<S>(),
        ensures
            result.wf(),
            result.spec_objective() == objective,
            result.spec_used().len() == 1,
            result.spec_used()[0]@ == result.spec_current()@,
            objective.feasible(*data, result.spec_current()@),
    {
        let initial_solution = objective.random(data);
        let current = initial_solution.clone();
        proof {
            assert(current@ == initial_solution@);
        }
        let mut used_space: Vec<S> = Vec::new();
        used_space.push(initial_solution);
        Self { current_solution: current, objective, used_space }
    }

    /// Draw random solutions until one is absent from the visited-set, then
    /// append it to the visited-set, make it current, and return a copy of
    /// it. When the whole solution space has been visited already, no draw
    /// can ever be fresh: that liveness risk is bounded here by one draw per
    /// representable attempt count, and a run that exhausts the budget (which
    /// no real machine completes) hands back the current solution unchanged.
    pub fn generate_unique_solution<D>(&mut self, data: &D) -> (result: S) where
        O: Objective<S, D>,

        requires
            old(self).wf(),
            old(self).spec_objective().data_wf(*data),
            old(self).spec_objective().feasible(*data, old(self).spec_current()@),
            clone_preserves_view::<S>(),
            S::obeys_eq_spec(),
        ensures
            final(self).wf(),
            final(self).spec_objective() == old(self).spec_objective(),
            result@ == final(self).spec_current()@,
            old(self).spec_objective().feasible(*data, result@),
            old(self).spec_used().len() <= final(self).spec_used().len(),
            forall|k: int|
                0 <= k < old(self).spec_used().len() ==> (#[trigger] final(self).spec_used()[k])
                    == old(self).spec_used()[k],
            *final(self) == *old(self) || final(self).spec_used() == old(self).spec_used().push(
                final(self).spec_used().last(),
            ),
            final(self).spec_used().len() > old(self).spec_used().len() ==> {
                &&& final(self).spec_used().last()@ == result@
                &&& forall|k: int|
                    0 <= k < old(self).spec_used().len() ==> !(#[trigger] old(self).spec_used()[k])
                        .eq_spec(&final(self).spec_used().last())
            },
    {
        let mut attempts: usize = 0;
        while attempts < usize::MAX
            invariant
                *self == *old(self),
                self.wf(),
                self.spec_objective().data_wf(*data),
                self.spec_objective().feasible(*data, self.spec_current()@),
                clone_preserves_view::<S>(),
                S::obeys_eq_spec(),
            decreases usize::MAX - attempts,
        {
            let candidate = self.objective.random(data);
            if !contains_solution(&self.used_space, &candidate) {
                let cur = candidate.clone();
                let ret = candidate.clone();
                proof {
                    assert(cur@ == candidate@);
                    assert(ret@ == candidate@);
                }
                let ghost prev = self.used_space@;
                proof {
                    assert(prev == self.spec_used());
                    assert(forall|i: int, j: int|
                        #![trigger prev[i], prev[j]]
                        0 <= i < j < prev.len() ==> !prev[i].eq_spec(&prev[j]));
                }
                self.used_space.push(candidate);
                proof {
                    assert(self.used_space@ =~= prev.push(self.used_space@.last()));
                    assert forall|i: int, j: int|
                        #![trigger self.used_space@[i], self.used_space@[j]]
                        0 <= i < j < self.used_space@.len() implies !self.used_space@[i].eq_spec(
                        &self.used_space@[j],
                    ) by {
                        if j == self.used_space@.len() - 1 {
                            assert(self.used_space@[i] == prev[i]);
                            assert(!prev[i].eq_spec(&self.used_space@[j]));
                        } else {
                            assert(self.used_space@[i] == prev[i]);
                            assert(self.used_space@[j] == prev[j]);
                            assert(!prev[i].eq_spec(&prev[j]));
                        }
                    }
                }
                self.current_solution = cur;
                return ret;
            }
            attempts += 1;
        }
        let fallback = self.current_solution.clone();
        proof {
            assert(fallback@ == self.current_solution@);
        }
        fallback
    }

    /// Draw `iterations` unique solutions (the first draw seeds the running
    /// best) and return the cheapest with its cost; only a strictly lower
    /// cost replaces the running best, so earlier draws win ties. The draws
    /// of one call are the entries this call appends to the visited-set,
    /// except that a draw whose attempt budget was exhausted repeats the
    /// entry before it; the result is the earliest draw of minimum cost.
    pub fn run<D>(&mut self, data: &D, iterations: usize) -> (result: (S, u128)) where
        O: Objective<S, D>,

        requires
            1 <= iterations,
            old(self).wf(),
            old(self).spec_objective().data_wf(*data),
            old(self).spec_objective().feasible(*data, old(self).spec_current()@),
            clone_preserves_view::<S>(),
            S::obeys_eq_spec(),
        ensures
            final(self).wf(),
            final(self).spec_objective() == old(self).spec_objective(),
            old(self).spec_objective().feasible(*data, result.0@),
            result.1 == old(self).spec_objective().spec_cost(result.0@),
            result.1 <= old(self).spec_objective().spec_cost(final(self).spec_current()@),
            iterations == 1 ==> result.0@ == final(self).spec_current()@,
            old(self).spec_used().len() <= final(self).spec_used().len(),
            final(self).spec_used().len() <= old(self).spec_used().len() + iterations,
            forall|k: int|
                0 <= k < old(self).spec_used().len() ==> (#[trigger] final(self).spec_used()[k])
                    == old(self).spec_used()[k],
            forall|k: int|
                old(self).spec_used().len() <= k < final(self).spec_used().len() ==> result.1
                    <= old(self).spec_objective().spec_cost(
                    (#[trigger] final(self).spec_used()[k])@,
                ),
            exists|k: int|
                #![trigger final(self).spec_used()[k]]
                old(self).spec_used().len() - 1 <= k < final(self).spec_used().len() && result.0@
                    == final(self).spec_used()[k]@ && forall|t: int|
                    old(self).spec_used().len() <= t < k ==> old(self).spec_objective().spec_cost(
                        (#[trigger] final(self).spec_used()[t])@,
                    ) > result.1,
    {
        let mut best_solution = self.generate_unique_solution(data);
        let mut best_cost = self.objective.evaluate(&best_solution);
        let ghost mut best_at: int = self.spec_used().len() - 1;
        let mut k: usize = 1;
        while k < iterations
            invariant
                1 <= k,
                self.wf(),
                self.spec_objective() == old(self).spec_objective(),
                self.spec_objective().data_wf(*data),
                self.spec_objective().feasible(*data, self.spec_current()@),
                clone_preserves_view::<S>(),
                S::obeys_eq_spec(),
                old(self).spec_objective().feasible(*data, best_solution@),
                best_cost == old(self).spec_objective().spec_cost(best_solution@),
                best_cost <= old(self).spec_objective().spec_cost(self.spec_current()@),
                k <= iterations,
                1 <= old(self).spec_used().len(),
                iterations == 1 ==> best_solution@ == self.spec_current()@,
                old(self).spec_used().len() <= self.spec_used().len(),
                self.spec_used().len() <= old(self).spec_used().len() + k,
                forall|t: int|
                    0 <= t < old(self).spec_used().len() ==> (#[trigger] self.spec_used()[t])
                        == old(self).spec_used()[t],
                forall|t: int|
                    old(self).spec_used().len() <= t < self.spec_used().len() ==> best_cost
                        <= old(self).spec_objective().spec_cost((#[trigger] self.spec_used()[t])@),
                old(self).spec_used().len() - 1 <= best_at < self.spec_used().len(),
                best_solution@ == (self.spec_used()[best_at])@,
                forall|t: int|
                    old(self).spec_used().len() <= t < best_at ==> old(
                        self,
                    ).spec_objective().spec_cost((#[trigger] self.spec_used()[t])@) > best_cost,
            decreases iterations - k,
        {
            let ghost pre_used = self.spec_used();
            let new_solution = self.generate_unique_solution(data);
            let new_cost = self.objective.evaluate(&new_solution);
            if new_cost < best_cost {
                best_cost = new_cost;
                best_solution = new_solution;
                proof {
                    best_at = self.spec_used().len() - 1;
                    assert(best_solution@ == (self.spec_used()[best_at])@);
                }
            } else {
                proof {
                    assert(self.spec_used()[best_at] == pre_used[best_at]);
                    assert(best_solution@ == (self.spec_used()[best_at])@);
                }
            }
            k += 1;
        }
        (best_solution, best_cost)
    }
}

} // verus!
