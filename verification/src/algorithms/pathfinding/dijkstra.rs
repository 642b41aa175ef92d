//! Dijkstra: the cost-ordered search with no heuristic.

use vstd::prelude::*;
use crate::maze::bounded::Maze;
use crate::maze::position::Position;
use crate::types::MoveDirection;
use crate::algorithms::pathfinding::route::is_shortest_path;
use crate::algorithms::pathfinding::search::shortest_search;
use crate::algorithms::pathfinding::traits::PathfindingAlgorithm;

verus! {

/// Dijkstra's algorithm over a bounded maze: the same search structure
/// as A* with the heuristic fixed at zero, ordering the frontier by pure
/// cost. It serves as an optimality cross-check against A*: the route
/// returned is proved to be a true shortest path.
pub struct Dijkstra;

impl PathfindingAlgorithm for Dijkstra {
    fn find_path(&self, maze: &Maze, start: Position, target: Position) -> (r: Option<
        Vec<MoveDirection>,
    >)
        ensures
            r is Some ==> is_shortest_path(*maze, start, target, r->0@),
    {
        shortest_search(maze, start, target, false)
    }

    fn name(&self) -> (r: &'static str)
        ensures
            r@ == "Dijkstra"@,
    {
        "Dijkstra"
    }
}

} // verus!
