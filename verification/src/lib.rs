//! A local-search / stochastic-search optimization library for
//! tour-optimization problems: pluggable objective functions and
//! neighborhood generators, three search drivers (first-improvement
//! hill climbing, steepest-ascent hill climbing, random sampling with
//! duplicate rejection), and a concrete traveling-salesman instantiation
//! with integer-grid Euclidean cost and 2-opt neighborhoods.

pub mod definitions;
pub mod hill_first_improv;
pub mod hill_steepest_ascent;
pub mod isqrt;
pub mod random_search;
pub mod tour_laws;
pub mod tsp;
