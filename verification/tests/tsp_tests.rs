use tsp_search::definitions::{LocalSearch, Neighborhood, Objective};
use tsp_search::isqrt::isqrt;
use tsp_search::random_search::RandomSearch;
use tsp_search::tsp::{dist, CityData, Data, Solution, TSPNeighborhood, TSPObjective};

fn city(name: &str, x: i32, y: i32) -> CityData {
    CityData { city_name: name.to_string(), lat: 0, lon: 0, x_km: x, y_km: y }
}

fn triangle_cities() -> Vec<CityData> {
    vec![city("A", 0, 0), city("B", 0, 3), city("C", 4, 0)]
}

fn rectangle_cities() -> Vec<CityData> {
    vec![city("A", 0, 0), city("B", 0, 3), city("C", 4, 0), city("D", 4, 3)]
}

fn sorted_names(tour: &[CityData]) -> Vec<String> {
    let mut names: Vec<String> = tour.iter().map(|c| c.city_name.clone()).collect();
    names.sort();
    names
}

#[test]
fn isqrt_exact_values() {
    assert_eq!(isqrt(0), 0);
    assert_eq!(isqrt(1), 1);
    assert_eq!(isqrt(2), 1);
    assert_eq!(isqrt(3), 1);
    assert_eq!(isqrt(4), 2);
    assert_eq!(isqrt(15), 3);
    assert_eq!(isqrt(16), 4);
    assert_eq!(isqrt(99), 9);
    assert_eq!(isqrt(100), 10);
    assert_eq!(isqrt(0xFFFFFFFFFFFFFFFF), 4294967295);
}

#[test]
fn dist_is_rounded_euclidean() {
    let a = city("A", 0, 0);
    let b = city("B", 0, 3);
    let c = city("C", 4, 0);
    assert_eq!(dist(&a, &b), 3);
    assert_eq!(dist(&b, &c), 5);
    assert_eq!(dist(&c, &a), 4);
    // 1-1 diagonal: sqrt(2) rounds down to 1
    assert_eq!(dist(&city("P", 0, 0), &city("Q", 1, 1)), 1);
    // distance is symmetric
    assert_eq!(dist(&b, &a), 3);
}

#[test]
fn evaluate_triangle_is_twelve() {
    let objective = TSPObjective { anchor: "A".to_string() };
    let tour: Solution = triangle_cities();
    assert_eq!(objective.evaluate(&tour), 3 + 5 + 4);
}

#[test]
fn evaluate_degenerate_tours_cost_zero() {
    let objective = TSPObjective { anchor: "A".to_string() };
    let empty: Solution = vec![];
    let single: Solution = vec![city("A", 7, -9)];
    assert_eq!(objective.evaluate(&empty), 0);
    assert_eq!(objective.evaluate(&single), 0);
}

#[test]
fn evaluate_is_rotation_invariant() {
    let objective = TSPObjective { anchor: "A".to_string() };
    let tour: Solution = vec![city("A", 0, 0), city("B", 2, 7), city("C", -5, 3), city("D", 1, -4)];
    let base = objective.evaluate(&tour);
    for k in 1..tour.len() {
        let mut rotated = tour.clone();
        rotated.rotate_left(k);
        assert_eq!(objective.evaluate(&rotated), base);
    }
}

#[test]
fn evaluate_is_reversal_invariant() {
    let objective = TSPObjective { anchor: "A".to_string() };
    let tour: Solution = vec![city("A", 0, 0), city("B", 2, 7), city("C", -5, 3), city("D", 1, -4)];
    let base = objective.evaluate(&tour);
    let mut reversed = tour.clone();
    reversed.reverse();
    assert_eq!(objective.evaluate(&reversed), base);
}

#[test]
fn random_tour_is_anchored_permutation() {
    let objective = TSPObjective { anchor: "A".to_string() };
    let data = Data { cities: rectangle_cities() };
    for _ in 0..20 {
        let tour = objective.random(&data);
        assert_eq!(tour.len(), 4);
        assert_eq!(tour[0].city_name, "A");
        assert_eq!(sorted_names(&tour), vec!["A", "B", "C", "D"]);
    }
}

#[test]
fn neighbors_count_is_n_minus_1_choose_2() {
    let nbh = TSPNeighborhood;
    let tour5: Solution = vec![
        city("A", 0, 0),
        city("B", 1, 0),
        city("C", 2, 0),
        city("D", 3, 0),
        city("E", 4, 0),
    ];
    assert_eq!(nbh.neighbors(&tour5).len(), 6);
    let tour3: Solution = triangle_cities();
    assert_eq!(nbh.neighbors(&tour3).len(), 1);
    let tour2: Solution = vec![city("A", 0, 0), city("B", 1, 0)];
    assert_eq!(nbh.neighbors(&tour2).len(), 0);
    let tour1: Solution = vec![city("A", 0, 0)];
    assert_eq!(nbh.neighbors(&tour1).len(), 0);
    let tour0: Solution = vec![];
    assert_eq!(nbh.neighbors(&tour0).len(), 0);
}

#[test]
fn neighbors_are_single_anchored_reversals() {
    let nbh = TSPNeighborhood;
    let tour: Solution = vec![
        city("A", 0, 0),
        city("B", 2, 7),
        city("C", -5, 3),
        city("D", 1, -4),
        city("E", 6, 2),
    ];
    let neighbors = nbh.neighbors(&tour);
    assert_eq!(neighbors.len(), 6);
    for nb in &neighbors {
        assert_eq!(nb.len(), tour.len());
        assert!(nb[0] == tour[0]);
        assert_eq!(sorted_names(nb), sorted_names(&tour));
        // the candidate differs from the tour by exactly one contiguous
        // reversal that does not touch position 0
        let mut i = 0;
        while i < tour.len() && nb[i] == tour[i] {
            i += 1;
        }
        let mut j = tour.len() - 1;
        while j > 0 && nb[j] == tour[j] {
            j -= 1;
        }
        assert!(i >= 1);
        assert!(i < j);
        for t in i..=j {
            assert!(nb[t] == tour[j - (t - i)]);
        }
    }
}

#[test]
fn first_improvement_never_increases_cost() {
    let objective = TSPObjective { anchor: "A".to_string() };
    let seed: Solution = vec![city("A", 0, 0), city("B", 0, 3), city("C", 4, 0), city("D", 4, 3)];
    let initial_cost = objective.evaluate(&seed);
    assert_eq!(initial_cost, 16);
    let mut engine = LocalSearch::new(objective, TSPNeighborhood);
    engine.set_initial(seed);
    let (solution, cost, rounds) =
        tsp_search::hill_first_improv::run::<Solution, TSPObjective, TSPNeighborhood, Data>(
            &mut engine,
        );
    assert!(cost <= initial_cost);
    assert_eq!(cost, 14);
    assert!(rounds >= 1);
    assert_eq!(engine.objective.evaluate(&solution), cost);
    // the result is a local optimum
    for nb in &engine.neighborhood.neighbors(&solution) {
        assert!(engine.objective.evaluate(nb) >= cost);
    }
}

#[test]
fn first_improvement_fixes_local_optimum_in_one_round() {
    let objective = TSPObjective { anchor: "A".to_string() };
    let optimal: Solution = vec![city("A", 0, 0), city("B", 0, 3), city("D", 4, 3), city("C", 4, 0)];
    let optimal_cost = objective.evaluate(&optimal);
    assert_eq!(optimal_cost, 14);
    let mut engine = LocalSearch::new(objective, TSPNeighborhood);
    engine.set_initial(optimal.clone());
    let (solution, cost, rounds) =
        tsp_search::hill_first_improv::run::<Solution, TSPObjective, TSPNeighborhood, Data>(
            &mut engine,
        );
    assert_eq!(rounds, 1);
    assert!(solution == optimal);
    assert_eq!(cost, optimal_cost);
}

#[test]
fn steepest_ascent_never_increases_cost() {
    let objective = TSPObjective { anchor: "A".to_string() };
    let seed: Solution = vec![city("A", 0, 0), city("B", 0, 3), city("C", 4, 0), city("D", 4, 3)];
    let initial_cost = objective.evaluate(&seed);
    let mut engine = LocalSearch::new(objective, TSPNeighborhood);
    engine.set_initial(seed);
    let (solution, cost, rounds) =
        tsp_search::hill_steepest_ascent::run::<Solution, TSPObjective, TSPNeighborhood, Data>(
            &mut engine,
        );
    assert!(cost <= initial_cost);
    assert_eq!(cost, 14);
    assert!(rounds >= 1);
    assert_eq!(engine.objective.evaluate(&solution), cost);
    for nb in &engine.neighborhood.neighbors(&solution) {
        assert!(engine.objective.evaluate(nb) >= cost);
    }
}

#[test]
fn steepest_ascent_fixes_local_optimum_in_one_round() {
    let objective = TSPObjective { anchor: "A".to_string() };
    let optimal: Solution = vec![city("A", 0, 0), city("B", 0, 3), city("D", 4, 3), city("C", 4, 0)];
    let optimal_cost = objective.evaluate(&optimal);
    let mut engine = LocalSearch::new(objective, TSPNeighborhood);
    engine.set_initial(optimal.clone());
    let (solution, cost, rounds) =
        tsp_search::hill_steepest_ascent::run::<Solution, TSPObjective, TSPNeighborhood, Data>(
            &mut engine,
        );
    assert_eq!(rounds, 1);
    assert!(solution == optimal);
    assert_eq!(cost, optimal_cost);
}

#[test]
fn random_search_single_iteration_returns_current_draw() {
    let objective = TSPObjective { anchor: "A".to_string() };
    let data = Data { cities: triangle_cities() };
    let mut engine: RandomSearch<Solution, TSPObjective> = RandomSearch::new(objective, &data);
    let check = TSPObjective { anchor: "A".to_string() };
    let (solution, cost) = engine.run(&data, 1);
    assert_eq!(solution.len(), 3);
    assert_eq!(solution[0].city_name, "A");
    assert_eq!(sorted_names(&solution), vec!["A", "B", "C"]);
    assert_eq!(cost, check.evaluate(&solution));
    assert_eq!(cost, 12);
}

#[test]
fn random_search_draws_are_unique() {
    let objective = TSPObjective { anchor: "A".to_string() };
    let data = Data { cities: rectangle_cities() };
    let mut engine: RandomSearch<Solution, TSPObjective> = RandomSearch::new(objective, &data);
    let first = engine.generate_unique_solution(&data);
    let second = engine.generate_unique_solution(&data);
    assert!(first != second);
    assert_eq!(first[0].city_name, "A");
    assert_eq!(second[0].city_name, "A");
    assert_eq!(sorted_names(&first), sorted_names(&second));
}

#[test]
fn random_search_keeps_cheapest_draw() {
    let objective = TSPObjective { anchor: "A".to_string() };
    let data = Data { cities: rectangle_cities() };
    let mut engine: RandomSearch<Solution, TSPObjective> = RandomSearch::new(objective, &data);
    let check = TSPObjective { anchor: "A".to_string() };
    let (solution, cost) = engine.run(&data, 3);
    assert_eq!(cost, check.evaluate(&solution));
    assert_eq!(sorted_names(&solution), vec!["A", "B", "C", "D"]);
    // with four locations the best anchored tour costs 14
    assert!(cost >= 14);
}

#[test]
fn drivers_are_deterministic_from_one_seed() {
    let seed: Solution = vec![
        city("A", 0, 0),
        city("B", 13, 2),
        city("C", -7, 9),
        city("D", 4, -11),
        city("E", -3, -6),
    ];
    let objective = TSPObjective { anchor: "A".to_string() };
    let mut engine = LocalSearch::new(objective, TSPNeighborhood);
    engine.set_initial(seed.clone());
    let first =
        tsp_search::hill_first_improv::run::<Solution, TSPObjective, TSPNeighborhood, Data>(
            &mut engine,
        );
    engine.set_initial(seed.clone());
    let second =
        tsp_search::hill_first_improv::run::<Solution, TSPObjective, TSPNeighborhood, Data>(
            &mut engine,
        );
    assert!(first.0 == second.0);
    assert_eq!(first.1, second.1);
    assert_eq!(first.2, second.2);
    engine.set_initial(seed.clone());
    let steep1 =
        tsp_search::hill_steepest_ascent::run::<Solution, TSPObjective, TSPNeighborhood, Data>(
            &mut engine,
        );
    engine.set_initial(seed);
    let steep2 =
        tsp_search::hill_steepest_ascent::run::<Solution, TSPObjective, TSPNeighborhood, Data>(
            &mut engine,
        );
    assert!(steep1.0 == steep2.0);
    assert_eq!(steep1.1, steep2.1);
    assert_eq!(steep1.2, steep2.2);
}
