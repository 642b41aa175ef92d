//! A maze-solving library for a simulated robot.
//!
//! The robot is driven in two regimes: an omniscient mode, where the full
//! grid is fetched up front and an optimal route is planned over it, and a
//! blind mode, where the robot sees only its eight-connected neighbourhood
//! and must explore the maze before it can plan.
//!
//! The crate provides the grid models (a dense bounded maze and a sparse
//! unbounded maze grown from sensor readings), the pathfinding algorithms
//! (A*, Dijkstra, DFS) with proofs that A* and Dijkstra return true
//! shortest paths, the exploration strategies (wall follower and recursive
//! backtracker), and the solver state machines that sequence exploration,
//! grid conversion, planning and execution. Transport to the simulation
//! (remote calls, sensor streams) is left to the embedding program, which
//! feeds plain values into the state machines defined here.

pub mod algorithms;
pub mod cli;
pub mod error;
pub mod maze;
pub mod solvers;
pub mod types;
