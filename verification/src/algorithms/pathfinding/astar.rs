//! A*: the cost-ordered search under the Manhattan-distance heuristic.

use vstd::prelude::*;
use crate::maze::bounded::Maze;
use crate::maze::position::Position;
use crate::types::MoveDirection;
use crate::algorithms::pathfinding::route::is_shortest_path;
use crate::algorithms::pathfinding::search::shortest_search;
use crate::algorithms::pathfinding::traits::PathfindingAlgorithm;

verus! {

/// A* over a bounded maze: a frontier ordered by cost plus Manhattan
/// distance, with ties broken deterministically by row then column. The
/// Manhattan heuristic is admissible on a unit-cost cardinal grid, and
/// the route returned is proved to be a true shortest path.
pub struct AStar;

impl PathfindingAlgorithm for AStar {
    fn find_path(&self, maze: &Maze, start: Position, target: Position) -> (r: Option<
        Vec<MoveDirection>,
    >)
        ensures
            r is Some ==> is_shortest_path(*maze, start, target, r->0@),
    {
        shortest_search(maze, start, target, true)
    }

    fn name(&self) -> (r: &'static str)
        ensures
            r@ == "A*"@,
    {
        "A*"
    }
}

} // verus!
