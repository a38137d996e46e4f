//! Steepest-ascent hill climbing: each round inspects the whole neighbor
//! list, moves to the cheapest strictly improving candidate (first in
//! generation order on ties), and stops when no candidate improves.

use vstd::prelude::*;
use crate::definitions::{clone_preserves_view, locally_optimal, LocalSearch, Neighborhood, Objective};

verus! {

/// One steepest-ascent move: `m` is a strictly improving candidate of
/// minimum cost over the whole neighbor list, the earliest in generation
/// order among candidates of that cost.
pub open spec fn steepest_ascent_move<S: View, D, O: Objective<S, D>, N: Neighborhood<S>>(
    objective: O,
    neighborhood: N,
    s: S::V,
    m: S::V,
) -> bool {
    exists|k: int|
        #![trigger neighborhood.spec_neighbors(s)[k]]
        0 <= k < neighborhood.spec_neighbors(s).len() && m == neighborhood.spec_neighbors(s)[k]
            && objective.spec_cost(m) < objective.spec_cost(s) && (forall|t: int|
            0 <= t < neighborhood.spec_neighbors(s).len() ==> objective.spec_cost(
                #[trigger] neighborhood.spec_neighbors(s)[t],
            ) >= objective.spec_cost(m)) && (forall|t: int|
            0 <= t < k ==> objective.spec_cost(#[trigger] neighborhood.spec_neighbors(s)[t])
                > objective.spec_cost(m))
}

/// `t` is reached from `s` by exactly `k` steepest-ascent moves.
pub open spec fn steepest_ascent_reaches<S: View, D, O: Objective<S, D>, N: Neighborhood<S>>(
    objective: O,
    neighborhood: N,
    s: S::V,
    t: S::V,
    k: int,
) -> bool
    decreases k,
{
    if k <= 0 {
        k == 0 && t == s
    } else {
        exists|m: S::V|
            #[trigger] steepest_ascent_move::<S, D, O, N>(objective, neighborhood, s, m)
                && steepest_ascent_reaches::<S, D, O, N>(objective, neighborhood, m, t, k - 1)
    }
}

/// A trajectory extends by one more move at its end.
proof fn lemma_steepest_ascent_reaches_extend<S: View, D, O: Objective<S, D>, N: Neighborhood<S>>(
    objective: O,
    neighborhood: N,
    s: S::V,
    t: S::V,
    k: int,
    m: S::V,
)
    requires
        0 <= k,
        steepest_ascent_reaches::<S, D, O, N>(objective, neighborhood, s, t, k),
        steepest_ascent_move::<S, D, O, N>(objective, neighborhood, t, m),
    ensures
        steepest_ascent_reaches::<S, D, O, N>(objective, neighborhood, s, m, k + 1),
    decreases k,
{
    if k == 0 {
        assert(steepest_ascent_reaches::<S, D, O, N>(objective, neighborhood, m, m, 0));
    } else {
        let m0 = choose|m0: S::V|
            #[trigger] steepest_ascent_move::<S, D, O, N>(objective, neighborhood, s, m0)
                && steepest_ascent_reaches::<S, D, O, N>(objective, neighborhood, m0, t, k - 1);
        lemma_steepest_ascent_reaches_extend::<S, D, O, N>(objective, neighborhood, m0, t, k - 1, m);
    }
}

/// The steepest-ascent move is a function of the current solution.
proof fn lemma_steepest_ascent_move_functional<S: View, D, O: Objective<S, D>, N: Neighborhood<S>>(
    objective: O,
    neighborhood: N,
    s: S::V,
    m1: S::V,
    m2: S::V,
)
    requires
        steepest_ascent_move::<S, D, O, N>(objective, neighborhood, s, m1),
        steepest_ascent_move::<S, D, O, N>(objective, neighborhood, s, m2),
    ensures
        m1 == m2,
{
    let nbs = neighborhood.spec_neighbors(s);
    let k1 = choose|k: int|
        #![trigger nbs[k]]
        0 <= k < nbs.len() && m1 == nbs[k] && objective.spec_cost(m1) < objective.spec_cost(s) && (
        forall|t: int|
            0 <= t < nbs.len() ==> objective.spec_cost(#[trigger] nbs[t]) >= objective.spec_cost(
                m1,
            )) && (forall|t: int|
            0 <= t < k ==> objective.spec_cost(#[trigger] nbs[t]) > objective.spec_cost(m1));
    let k2 = choose|k: int|
        #![trigger nbs[k]]
        0 <= k < nbs.len() && m2 == nbs[k] && objective.spec_cost(m2) < objective.spec_cost(s) && (
        forall|t: int|
            0 <= t < nbs.len() ==> objective.spec_cost(#[trigger] nbs[t]) >= objective.spec_cost(
                m2,
            )) && (forall|t: int|
            0 <= t < k ==> objective.spec_cost(#[trigger] nbs[t]) > objective.spec_cost(m2));
    assert(objective.spec_cost(nbs[k1]) >= objective.spec_cost(m2));
    assert(objective.spec_cost(nbs[k2]) >= objective.spec_cost(m1));
    if k1 < k2 {
        assert(objective.spec_cost(nbs[k1]) > objective.spec_cost(m2));
    }
    if k2 < k1 {
        assert(objective.spec_cost(nbs[k2]) > objective.spec_cost(m1));
    }
}

/// A locally optimal solution admits no steepest-ascent move.
proof fn lemma_steepest_ascent_move_blocked<S: View, D, O: Objective<S, D>, N: Neighborhood<S>>(
    objective: O,
    neighborhood: N,
    s: S::V,
    m: S::V,
)
    requires
        locally_optimal::<S, D, O, N>(objective, neighborhood, s),
    ensures
        !steepest_ascent_move::<S, D, O, N>(objective, neighborhood, s, m),
{
    if steepest_ascent_move::<S, D, O, N>(objective, neighborhood, s, m) {
        let nbs = neighborhood.spec_neighbors(s);
        let k = choose|k: int|
            #![trigger nbs[k]]
            0 <= k < nbs.len() && m == nbs[k] && objective.spec_cost(m) < objective.spec_cost(s)
                && (forall|t: int|
                0 <= t < nbs.len() ==> objective.spec_cost(#[trigger] nbs[t])
                    >= objective.spec_cost(m)) && (forall|t: int|
                0 <= t < k ==> objective.spec_cost(#[trigger] nbs[t]) > objective.spec_cost(m));
        assert(objective.spec_cost(nbs[k]) >= objective.spec_cost(s));
    }
}

/// Law: steepest-ascent hill climbing is deterministic. From one start,
/// only one final solution and one move count satisfy the policy's
/// reachability together with local optimality of the end.
pub proof fn lemma_steepest_ascent_deterministic<S: View, D, O: Objective<S, D>, N: Neighborhood<S>>(
    objective: O,
    neighborhood: N,
    s: S::V,
    t1: S::V,
    k1: int,
    t2: S::V,
    k2: int,
)
    requires
        0 <= k1,
        0 <= k2,
        steepest_ascent_reaches::<S, D, O, N>(objective, neighborhood, s, t1, k1),
        steepest_ascent_reaches::<S, D, O, N>(objective, neighborhood, s, t2, k2),
        locally_optimal::<S, D, O, N>(objective, neighborhood, t1),
        locally_optimal::<S, D, O, N>(objective, neighborhood, t2),
    ensures
        t1 == t2,
        k1 == k2,
    decreases k1,
{
    if k1 == 0 && k2 == 0 {
    } else if k1 == 0 {
        let m = choose|m: S::V|
            #[trigger] steepest_ascent_move::<S, D, O, N>(objective, neighborhood, s, m)
                && steepest_ascent_reaches::<S, D, O, N>(objective, neighborhood, m, t2, k2 - 1);
        lemma_steepest_ascent_move_blocked::<S, D, O, N>(objective, neighborhood, t1, m);
    } else if k2 == 0 {
        let m = choose|m: S::V|
            #[trigger] steepest_ascent_move::<S, D, O, N>(objective, neighborhood, s, m)
                && steepest_ascent_reaches::<S, D, O, N>(objective, neighborhood, m, t1, k1 - 1);
        lemma_steepest_ascent_move_blocked::<S, D, O, N>(objective, neighborhood, t2, m);
    } else {
        let m1 = choose|m: S::V|
            #[trigger] steepest_ascent_move::<S, D, O, N>(objective, neighborhood, s, m)
                && steepest_ascent_reaches::<S, D, O, N>(objective, neighborhood, m, t1, k1 - 1);
        let m2 = choose|m: S::V|
            #[trigger] steepest_ascent_move::<S, D, O, N>(objective, neighborhood, s, m)
                && steepest_ascent_reaches::<S, D, O, N>(objective, neighborhood, m, t2, k2 - 1);
        lemma_steepest_ascent_move_functional::<S, D, O, N>(objective, neighborhood, s, m1, m2);
        lemma_steepest_ascent_deterministic::<S, D, O, N>(
            objective,
            neighborhood,
            m1,
            t1,
            k1 - 1,
            t2,
            k2 - 1,
        );
    }
}

/// Run steepest-ascent hill climbing from the engine's seeded solution.
/// Returns the final solution, its cost, and the number of rounds: the final
/// solution is a local optimum reached by `rounds - 1` accepted
/// steepest-ascent moves, and never costs more than the seed.
pub fn run<S, O, N, D>(search: &mut LocalSearch<S, O, N>) -> (result: (S, u128, u128)) where
    S: View + Clone,
    O: Objective<S, D>,
    N: Neighborhood<S>,

    requires
        old(search).current_solution is Some,
        old(search).objective.spec_cost((old(search).current_solution->0)@) < u128::MAX,
        clone_preserves_view::<S>(),
    ensures
        *final(search) == *old(search),
        result.1 == final(search).objective.spec_cost(result.0@),
        result.1 <= old(search).objective.spec_cost((old(search).current_solution->0)@),
        locally_optimal::<S, D, O, N>(
            final(search).objective,
            final(search).neighborhood,
            result.0@,
        ),
        result.2 >= 1,
        locally_optimal::<S, D, O, N>(
            old(search).objective,
            old(search).neighborhood,
            (old(search).current_solution->0)@,
        ) ==> result.2 == 1 && result.0@ == (old(search).current_solution->0)@,
        !locally_optimal::<S, D, O, N>(
            old(search).objective,
            old(search).neighborhood,
            (old(search).current_solution->0)@,
        ) ==> result.1 < old(search).objective.spec_cost((old(search).current_solution->0)@),
        steepest_ascent_reaches::<S, D, O, N>(
            final(search).objective,
            final(search).neighborhood,
            (old(search).current_solution->0)@,
            result.0@,
            result.2 - 1,
        ),
{
    let ghost seed = search.current_solution->0;
    let current_init: S = match &search.current_solution {
        Option::Some(s) => s.clone(),
        Option::None => vstd::pervasive::unreached(),
    };
    let mut current: S = current_init;
    proof {
        assert(current@ == seed@);
    }
    let mut current_cost: u128 = search.objective.evaluate(&current);
    let mut rounds: u128 = 0;
    loop
        invariant
            *search == *old(search),
            search.current_solution is Some,
            seed == search.current_solution->0,
            search.objective.spec_cost(seed@) < u128::MAX,
            current_cost == search.objective.spec_cost(current@),
            current_cost <= search.objective.spec_cost(seed@),
            rounds <= search.objective.spec_cost(seed@) - current_cost,
            rounds == 0 ==> current@ == seed@,
            rounds >= 1 ==> current_cost < search.objective.spec_cost(seed@),
            locally_optimal::<S, D, O, N>(search.objective, search.neighborhood, seed@)
                ==> rounds == 0 && current@ == seed@,
            steepest_ascent_reaches::<S, D, O, N>(
                search.objective,
                search.neighborhood,
                seed@,
                current@,
                rounds as int,
            ),
        decreases current_cost,
    {
        let ghost round_sol = current;
        let ghost r0 = rounds;
        let mut neighbors: Vec<S> = search.neighborhood.neighbors(&current);
        let ghost nbs = search.neighborhood.spec_neighbors(current@);
        let mut found = false;
        let mut best_idx: usize = 0;
        let mut best_cost: u128 = current_cost;
        let mut idx: usize = 0;
        while idx < neighbors.len()
            invariant
                *search == *old(search),
                idx <= nbs.len(),
                neighbors@.len() == nbs.len(),
                forall|t: int|
                    0 <= t < neighbors@.len() ==> (#[trigger] neighbors@[t])@ == nbs[t],
                forall|t: int|
                    0 <= t < idx ==> search.objective.spec_cost(#[trigger] nbs[t]) >= best_cost,
                !found ==> best_cost == current_cost,
                found ==> best_idx < idx && best_cost == search.objective.spec_cost(
                    nbs[best_idx as int],
                ) && best_cost < current_cost,
                found ==> forall|t: int|
                    0 <= t < best_idx ==> search.objective.spec_cost(#[trigger] nbs[t]) > best_cost,
            decreases nbs.len() - idx,
        {
            let ncost = search.objective.evaluate(&neighbors[idx]);
            if ncost < best_cost {
                best_cost = ncost;
                best_idx = idx;
                found = true;
            }
            idx += 1;
        }
        proof {
            if rounds >= search.objective.spec_cost(seed@) - current_cost + 1 {
                assert(false);
            }
        }
        rounds = rounds + 1;
        if found {
            let accepted = neighbors.remove(best_idx);
            proof {
                assert(accepted@ == nbs[best_idx as int]);
                assert(search.neighborhood.spec_neighbors(round_sol@)[best_idx as int]
                    == accepted@);
                assert(steepest_ascent_move::<S, D, O, N>(
                    search.objective,
                    search.neighborhood,
                    round_sol@,
                    accepted@,
                ));
                lemma_steepest_ascent_reaches_extend::<S, D, O, N>(
                    search.objective,
                    search.neighborhood,
                    seed@,
                    round_sol@,
                    r0 as int,
                    accepted@,
                );
                if locally_optimal::<S, D, O, N>(search.objective, search.neighborhood, seed@) {
                    assert(search.objective.spec_cost(nbs[best_idx as int])
                        >= search.objective.spec_cost(seed@));
                    assert(false);
                }
            }
            current = accepted;
            current_cost = best_cost;
        } else {
            proof {
                assert(locally_optimal::<S, D, O, N>(
                    search.objective,
                    search.neighborhood,
                    current@,
                ));
            }
            return (current, current_cost, rounds);
        }
    }
}

} // verus!
