//! First-improvement hill climbing: accept the first strictly improving
//! neighbor found in generation order, restart the scan from it, and stop
//! after the first full scan round without an improvement.

use vstd::prelude::*;
use crate::definitions::{clone_preserves_view, locally_optimal, LocalSearch, Neighborhood, Objective};

verus! {

/// One first-improvement move: `m` is the first neighbor in generation order
/// whose cost is strictly below the current solution's.
pub open spec fn first_improvement_move<S: View, D, O: Objective<S, D>, N: Neighborhood<S>>(
    objective: O,
    neighborhood: N,
    s: S::V,
    m: S::V,
) -> bool {
    exists|k: int|
        #![trigger neighborhood.spec_neighbors(s)[k]]
        0 <= k < neighborhood.spec_neighbors(s).len() && m == neighborhood.spec_neighbors(s)[k]
            && objective.spec_cost(m) < objective.spec_cost(s) && (forall|t: int|
            0 <= t < k ==> objective.spec_cost(#[trigger] neighborhood.spec_neighbors(s)[t])
                >= objective.spec_cost(s))
}

/// `t` is reached from `s` by exactly `k` first-improvement moves.
pub open spec fn first_improvement_reaches<S: View, D, O: Objective<S, D>, N: Neighborhood<S>>(
    objective: O,
    neighborhood: N,
    s: S::V,
    t: S::V,
    k: int,
) -> bool
    decreases k,
{
    if k <= 0 {
        k == 0 && t == s
    } else {
        exists|m: S::V|
            #[trigger] first_improvement_move::<S, D, O, N>(objective, neighborhood, s, m)
                && first_improvement_reaches::<S, D, O, N>(objective, neighborhood, m, t, k - 1)
    }
}

/// A trajectory extends by one more move at its end.
proof fn lemma_first_improvement_reaches_extend<
    S: View,
    D,
    O: Objective<S, D>,
    N: Neighborhood<S>,
>(objective: O, neighborhood: N, s: S::V, t: S::V, k: int, m: S::V)
    requires
        0 <= k,
        first_improvement_reaches::<S, D, O, N>(objective, neighborhood, s, t, k),
        first_improvement_move::<S, D, O, N>(objective, neighborhood, t, m),
    ensures
        first_improvement_reaches::<S, D, O, N>(objective, neighborhood, s, m, k + 1),
    decreases k,
{
    if k == 0 {
        assert(first_improvement_reaches::<S, D, O, N>(objective, neighborhood, m, m, 0));
    } else {
        let m0 = choose|m0: S::V|
            #[trigger] first_improvement_move::<S, D, O, N>(objective, neighborhood, s, m0)
                && first_improvement_reaches::<S, D, O, N>(objective, neighborhood, m0, t, k - 1);
        lemma_first_improvement_reaches_extend::<S, D, O, N>(
            objective,
            neighborhood,
            m0,
            t,
            k - 1,
            m,
        );
    }
}

/// The first-improvement move is a function of the current solution.
proof fn lemma_first_improvement_move_functional<
    S: View,
    D,
    O: Objective<S, D>,
    N: Neighborhood<S>,
>(objective: O, neighborhood: N, s: S::V, m1: S::V, m2: S::V)
    requires
        first_improvement_move::<S, D, O, N>(objective, neighborhood, s, m1),
        first_improvement_move::<S, D, O, N>(objective, neighborhood, s, m2),
    ensures
        m1 == m2,
{
    let nbs = neighborhood.spec_neighbors(s);
    let k1 = choose|k: int|
        #![trigger nbs[k]]
        0 <= k < nbs.len() && m1 == nbs[k] && objective.spec_cost(m1) < objective.spec_cost(s) && (
        forall|t: int|
            0 <= t < k ==> objective.spec_cost(#[trigger] nbs[t]) >= objective.spec_cost(s));
    let k2 = choose|k: int|
        #![trigger nbs[k]]
        0 <= k < nbs.len() && m2 == nbs[k] && objective.spec_cost(m2) < objective.spec_cost(s) && (
        forall|t: int|
            0 <= t < k ==> objective.spec_cost(#[trigger] nbs[t]) >= objective.spec_cost(s));
    if k1 < k2 {
        assert(objective.spec_cost(nbs[k1]) >= objective.spec_cost(s));
    }
    if k2 < k1 {
        assert(objective.spec_cost(nbs[k2]) >= objective.spec_cost(s));
    }
}

/// Law: first-improvement hill climbing is deterministic. From one start,
/// only one final solution and one move count satisfy the policy's
/// reachability together with local optimality of the end.
pub proof fn lemma_first_improvement_deterministic<
    S: View,
    D,
    O: Objective<S, D>,
    N: Neighborhood<S>,
>(objective: O, neighborhood: N, s: S::V, t1: S::V, k1: int, t2: S::V, k2: int)
    requires
        0 <= k1,
        0 <= k2,
        first_improvement_reaches::<S, D, O, N>(objective, neighborhood, s, t1, k1),
        first_improvement_reaches::<S, D, O, N>(objective, neighborhood, s, t2, k2),
        locally_optimal::<S, D, O, N>(objective, neighborhood, t1),
        locally_optimal::<S, D, O, N>(objective, neighborhood, t2),
    ensures
        t1 == t2,
        k1 == k2,
    decreases k1,
{
    if k1 == 0 && k2 == 0 {
    } else if k1 == 0 {
        let m = choose|m: S::V|
            #[trigger] first_improvement_move::<S, D, O, N>(objective, neighborhood, s, m)
                && first_improvement_reaches::<S, D, O, N>(objective, neighborhood, m, t2, k2 - 1);
        lemma_first_improvement_move_blocked::<S, D, O, N>(objective, neighborhood, t1, m);
    } else if k2 == 0 {
        let m = choose|m: S::V|
            #[trigger] first_improvement_move::<S, D, O, N>(objective, neighborhood, s, m)
                && first_improvement_reaches::<S, D, O, N>(objective, neighborhood, m, t1, k1 - 1);
        lemma_first_improvement_move_blocked::<S, D, O, N>(objective, neighborhood, t2, m);
    } else {
        let m1 = choose|m: S::V|
            #[trigger] first_improvement_move::<S, D, O, N>(objective, neighborhood, s, m)
                && first_improvement_reaches::<S, D, O, N>(objective, neighborhood, m, t1, k1 - 1);
        let m2 = choose|m: S::V|
            #[trigger] first_improvement_move::<S, D, O, N>(objective, neighborhood, s, m)
                && first_improvement_reaches::<S, D, O, N>(objective, neighborhood, m, t2, k2 - 1);
        lemma_first_improvement_move_functional::<S, D, O, N>(objective, neighborhood, s, m1, m2);
        lemma_first_improvement_deterministic::<S, D, O, N>(
            objective,
            neighborhood,
            m1,
            t1,
            k1 - 1,
            t2,
            k2 - 1,
        );
    }
}

/// A locally optimal solution admits no first-improvement move.
proof fn lemma_first_improvement_move_blocked<S: View, D, O: Objective<S, D>, N: Neighborhood<S>>(
    objective: O,
    neighborhood: N,
    s: S::V,
    m: S::V,
)
    requires
        locally_optimal::<S, D, O, N>(objective, neighborhood, s),
    ensures
        !first_improvement_move::<S, D, O, N>(objective, neighborhood, s, m),
{
    if first_improvement_move::<S, D, O, N>(objective, neighborhood, s, m) {
        let nbs = neighborhood.spec_neighbors(s);
        let k = choose|k: int|
            #![trigger nbs[k]]
            0 <= k < nbs.len() && m == nbs[k] && objective.spec_cost(m) < objective.spec_cost(s)
                && (forall|t: int|
                0 <= t < k ==> objective.spec_cost(#[trigger] nbs[t]) >= objective.spec_cost(s));
        assert(objective.spec_cost(nbs[k]) >= objective.spec_cost(s));
    }
}

/// Run first-improvement hill climbing from the engine's seeded solution.
/// Returns the final solution, its cost, and the number of full scan rounds:
/// the final solution is a local optimum reached by `rounds - 1` accepted
/// first-improvement moves, and never costs more than the seed.
pub fn run<S, O, N, D>(search: &mut LocalSearch<S, O, N>) -> (result: (S, u128, u128)) where
    S: View + Clone,
    O: Objective<S, D>,
    N: Neighborhood<S>,

    requires
        old(search).current_solution is Some,
        old(search).objective.spec_cost((old(search).current_solution->0)@) < u128::MAX,
        clone_preserves_view::<S>(),
    ensures
        *final(search) == *old(search),
        result.1 == final(search).objective.spec_cost(result.0@),
        result.1 <= old(search).objective.spec_cost((old(search).current_solution->0)@),
        locally_optimal::<S, D, O, N>(
            final(search).objective,
            final(search).neighborhood,
            result.0@,
        ),
        result.2 >= 1,
        locally_optimal::<S, D, O, N>(
            old(search).objective,
            old(search).neighborhood,
            (old(search).current_solution->0)@,
        ) ==> result.2 == 1 && result.0@ == (old(search).current_solution->0)@,
        !locally_optimal::<S, D, O, N>(
            old(search).objective,
            old(search).neighborhood,
            (old(search).current_solution->0)@,
        ) ==> result.1 < old(search).objective.spec_cost((old(search).current_solution->0)@),
        first_improvement_reaches::<S, D, O, N>(
            final(search).objective,
            final(search).neighborhood,
            (old(search).current_solution->0)@,
            result.0@,
            result.2 - 1,
        ),
{
    let ghost seed = search.current_solution->0;
    let current_init: S = match &search.current_solution {
        Option::Some(s) => s.clone(),
        Option::None => vstd::pervasive::unreached(),
    };
    let mut current: S = current_init;
    proof {
        assert(current@ == seed@);
    }
    let mut current_cost: u128 = search.objective.evaluate(&current);
    let mut rounds: u128 = 0;
    loop
        invariant
            *search == *old(search),
            search.current_solution is Some,
            seed == search.current_solution->0,
            search.objective.spec_cost(seed@) < u128::MAX,
            current_cost == search.objective.spec_cost(current@),
            current_cost <= search.objective.spec_cost(seed@),
            rounds <= search.objective.spec_cost(seed@) - current_cost,
            rounds == 0 ==> current@ == seed@,
            rounds >= 1 ==> current_cost < search.objective.spec_cost(seed@),
            locally_optimal::<S, D, O, N>(search.objective, search.neighborhood, seed@)
                ==> rounds == 0 && current@ == seed@,
            first_improvement_reaches::<S, D, O, N>(
                search.objective,
                search.neighborhood,
                seed@,
                current@,
                rounds as int,
            ),
        decreases current_cost,
    {
        let ghost round_sol = current;
        let ghost c0 = current_cost;
        let ghost r0 = rounds;
        let mut neighbors: Vec<S> = search.neighborhood.neighbors(&current);
        let ghost nbs = search.neighborhood.spec_neighbors(round_sol@);
        let mut improved = false;
        let mut idx: usize = 0;
        while idx < neighbors.len() && !improved
            invariant
                *search == *old(search),
                idx <= nbs.len(),
                nbs == search.neighborhood.spec_neighbors(round_sol@),
                current_cost == search.objective.spec_cost(current@),
                !improved ==> current == round_sol && current_cost == c0,
                !improved ==> neighbors@.len() == nbs.len(),
                !improved ==> forall|t: int|
                    0 <= t < neighbors@.len() ==> (#[trigger] neighbors@[t])@ == nbs[t],
                !improved ==> forall|t: int|
                    0 <= t < idx ==> search.objective.spec_cost(#[trigger] nbs[t]) >= c0,
                improved ==> current_cost < c0,
                improved ==> exists|t: int| 0 <= t < nbs.len() && current@ == #[trigger] nbs[t],
                improved ==> first_improvement_move::<S, D, O, N>(
                    search.objective,
                    search.neighborhood,
                    round_sol@,
                    current@,
                ),
            decreases (if improved {
                0int
            } else {
                1int
            }), nbs.len() - idx,
        {
            let ncost = search.objective.evaluate(&neighbors[idx]);
            if ncost < current_cost {
                let accepted = neighbors.remove(idx);
                proof {
                    assert(accepted@ == nbs[idx as int]);
                    assert(search.neighborhood.spec_neighbors(round_sol@)[idx as int]
                        == accepted@);
                    assert(first_improvement_move::<S, D, O, N>(
                        search.objective,
                        search.neighborhood,
                        round_sol@,
                        accepted@,
                    ));
                }
                current = accepted;
                current_cost = ncost;
                improved = true;
            } else {
                idx += 1;
            }
        }
        proof {
            if rounds >= search.objective.spec_cost(seed@) - current_cost + 1 {
                assert(false);
            }
        }
        rounds = rounds + 1;
        if !improved {
            proof {
                assert(locally_optimal::<S, D, O, N>(
                    search.objective,
                    search.neighborhood,
                    current@,
                ));
            }
            return (current, current_cost, rounds);
        }
        proof {
            if locally_optimal::<S, D, O, N>(search.objective, search.neighborhood, seed@) {
                let t = choose|t: int| 0 <= t < nbs.len() && current@ == nbs[t];
                assert(search.objective.spec_cost(nbs[t]) >= search.objective.spec_cost(seed@));
                assert(false);
            }
            lemma_first_improvement_reaches_extend::<S, D, O, N>(
                search.objective,
                search.neighborhood,
                seed@,
                round_sol@,
                r0 as int,
                current@,
            );
        }
    }
}

} // verus!
