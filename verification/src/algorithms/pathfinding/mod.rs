//! Pathfinding over a fully-known bounded maze: A* and Dijkstra compute
//! true shortest routes; DFS computes some legal route.

pub mod astar;
pub mod dfs;
pub mod dijkstra;
pub mod route;
pub mod search;
pub mod traits;

pub use astar::AStar;
pub use dfs::DFS;
pub use dijkstra::Dijkstra;
pub use traits::{PathResult, PathfindingAlgorithm};


