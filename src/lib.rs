//! Ant colony optimisation for the travelling salesman problem on a complete,
//! undirected graph: the discrete core of the engine, with its contracts.
pub mod pair;
pub mod graph;
pub mod record;
pub mod tour;
pub mod deposit;
pub mod schedule;
