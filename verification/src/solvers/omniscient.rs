//! The omniscient solver: the full grid is fetched in one call, the
//! robot and target are located, and the chosen pathfinding algorithm
//! plans the route, which the embedding program then executes move by
//! move, failing fast on the first unsuccessful move.

use vstd::prelude::*;
use crate::error::SolverError;
use crate::maze::bounded::Maze;
use crate::maze::cell::Cell;
use crate::maze::position::Position;
use crate::types::MoveDirection;
use crate::algorithms::pathfinding::route::{path_ok, reachable};
use crate::algorithms::pathfinding::traits::PathfindingAlgorithm;

verus! {

/// An omniscient solver: a pathfinding strategy plus the inter-step
/// delay the embedding program applies while executing.
pub struct OmniscientSolver<A: PathfindingAlgorithm> {
    algorithm: A,
    delay_ms: u64,
}

impl<A: PathfindingAlgorithm> OmniscientSolver<A> {
    pub closed spec fn spec_delay_ms(self) -> u64 {
        self.delay_ms
    }

    pub fn new(algorithm: A, delay_ms: u64) -> (r: Self)
        ensures
            r.spec_delay_ms() == delay_ms,
    {
        Self { algorithm, delay_ms }
    }

    /// The delay to apply between executed moves, in milliseconds.
    pub fn delay_ms(&self) -> (r: u64)
        ensures
            r == self.spec_delay_ms(),
    {
        self.delay_ms
    }

    /// The planning core of a solve: locates the robot and the target in
    /// a fully-known maze and plans a route between them. Fails exactly
    /// when the robot or the target is missing, or no route exists.
    pub fn plan(&self, maze: &Maze) -> (r: Result<
        (Position, Position, Vec<MoveDirection>),
        SolverError,
    >)
        ensures
            (r == Err::<(Position, Position, Vec<MoveDirection>), SolverError>(
                SolverError::NotFound,
            )) == (maze.spec_find(Cell::Robot) is None || maze.spec_find(Cell::Target) is None),
            maze.spec_find(Cell::Robot) is Some && maze.spec_find(Cell::Target) is Some ==> {
                let start = maze.spec_find(Cell::Robot)->0;
                let target = maze.spec_find(Cell::Target)->0;
                &&& (r == Err::<(Position, Position, Vec<MoveDirection>), SolverError>(
                    SolverError::Unreachable,
                )) == !reachable(*maze, start, target)
                &&& (r is Err ==> r == Err::<(Position, Position, Vec<MoveDirection>), SolverError>(
                    SolverError::Unreachable,
                ))
                &&& (r matches Ok((s, t, path)) ==> s == start && t == target && path_ok(
                    *maze,
                    start,
                    target,
                    path@,
                ))
            },
    {
        let start = match maze.find_robot() {
            Some(p) => p,
            None => {
                return Err(SolverError::NotFound);
            },
        };
        let target = match maze.find_target() {
            Some(p) => p,
            None => {
                return Err(SolverError::NotFound);
            },
        };
        match self.algorithm.find_path(maze, start, target) {
            Some(path) => Ok((start, target, path)),
            None => Err(SolverError::Unreachable),
        }
    }
}

} // verus!
