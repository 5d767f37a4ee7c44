//! Tours over a cost matrix: the tour type, a nearest-neighbour solver, and the
//! integer side of the Ant-Q colony (lock-step tour construction, iteration and
//! global bests, reinforcement targets), with the text format of cost matrices.
pub mod cli_utils;
pub mod colony;
pub mod driver;
pub mod greedy_solver;
pub mod models;
pub mod parsing;
pub mod rand_utils;
