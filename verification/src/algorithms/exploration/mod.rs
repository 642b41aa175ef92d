//! Exploration under partial observability: strategies that decide the
//! next single move from the robot's sensors and the maze discovered so
//! far.

pub mod recursive_backtracker;
pub mod traits;
pub mod wall_follower;

pub use recursive_backtracker::RecursiveBacktracker;
pub use traits::ExplorationAlgorithm;
pub use wall_follower::WallFollower;
