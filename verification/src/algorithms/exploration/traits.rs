//! The capability an exploration strategy offers: deciding the next
//! single move from the robot's position, its sensors, and the maze
//! discovered so far.

use vstd::prelude::*;
use crate::error::SolverError;
use crate::maze::unbounded::{in_coord_range, UnboundedMaze, UnboundedPosition};
use crate::types::{MoveDirection, SensorsStates};

verus! {

/// An exploration strategy over the unbounded maze. A strategy treats a
/// sensed target cell as blocked while exploring: target-seeking is the
/// planning phase's job, after exploration reports completion.
pub trait ExplorationAlgorithm {
    /// Decides the next move, `Ok(None)` once exploration is complete,
    /// or an error where no legal move exists. Any move returned leads
    /// onto a cell the sensors report free or the discovered maze holds
    /// as walkable.
    fn next_move(
        &mut self,
        current_pos: UnboundedPosition,
        sensors: &SensorsStates,
        maze: &UnboundedMaze,
    ) -> (r: Result<Option<MoveDirection>, SolverError>)
        requires
            in_coord_range(current_pos),
        ensures
            r matches Ok(Some(d)) ==> sensors.spec_cardinal(d) is Free || maze.spec_is_walkable(
                current_pos.spec_step(d),
            ),
    ;

    /// The display name of the strategy.
    fn name(&self) -> &'static str;

    /// Returns the strategy to its initial state, clearing everything
    /// discovered, so that a fresh run can begin.
    fn reset(&mut self);
}

} // verus!
