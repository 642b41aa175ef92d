//! The algorithm families: pathfinding over a known bounded maze, and
//! exploration over a partially discovered unbounded maze.

pub mod exploration;
pub mod pathfinding;
