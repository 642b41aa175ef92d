//! The capability a pathfinding strategy offers, and the result record a
//! solve produces.

use vstd::prelude::*;
use crate::maze::bounded::Maze;
use crate::maze::position::Position;
use crate::types::MoveDirection;
use crate::algorithms::pathfinding::route::{path_ok, reachable};

verus! {

/// A pathfinding strategy over a fully-known bounded maze. Every
/// strategy returns a legal route exactly when one exists; the informed
/// strategies additionally promise a shortest one.
pub trait PathfindingAlgorithm {
    /// Computes a route from `start` to `target`, or `None` exactly when
    /// the target is unreachable.
    fn find_path(&self, maze: &Maze, start: Position, target: Position) -> (r: Option<
        Vec<MoveDirection>,
    >)
        requires
            maze.spec_in_bounds(start),
            maze.spec_in_bounds(target),
        ensures
            r is Some ==> path_ok(*maze, start, target, r->0@),
            r is None ==> !reachable(*maze, start, target),
    ;

    /// The display name of the strategy.
    fn name(&self) -> &'static str;
}

/// The outcome of one solve: the number of steps driven, and the time
/// spent planning and executing, in milliseconds.
pub struct PathResult {
    pub steps: usize,
    pub planning_ms: u128,
    pub execution_ms: u128,
    pub total_ms: u128,
}

impl PathResult {
    /// Records a solve outcome; the total is the planning and execution
    /// times combined.
    pub fn new(steps: usize, planning_ms: u128, execution_ms: u128) -> (r: Self)
        requires
            planning_ms + execution_ms <= u128::MAX,
        ensures
            r.steps == steps,
            r.planning_ms == planning_ms,
            r.execution_ms == execution_ms,
            r.total_ms == planning_ms + execution_ms,
    {
        let total_ms = planning_ms + execution_ms;
        Self { steps, planning_ms, execution_ms, total_ms }
    }
}

} // verus!
