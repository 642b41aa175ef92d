//! The wall follower: left-hand-rule exploration. The robot keeps its
//! left hand on the wall — at each step it tries turn-left, straight,
//! turn-right, turn-around, in that order — and reports completion once
//! it returns to its start having visited more than one cell.

use vstd::prelude::*;
use vstd::seq_lib::*;
use crate::error::SolverError;
use crate::maze::unbounded::{in_coord_range, UnboundedMaze, UnboundedPosition};
use crate::types::{MoveDirection, SensorState, SensorsStates};
use crate::algorithms::exploration::traits::ExplorationAlgorithm;

verus! {

/// The direction ninety degrees to the left of `d`.
pub open spec fn spec_turn_left(d: MoveDirection) -> MoveDirection {
    match d {
        MoveDirection::Up => MoveDirection::Left,
        MoveDirection::Left => MoveDirection::Down,
        MoveDirection::Down => MoveDirection::Right,
        MoveDirection::Right => MoveDirection::Up,
    }
}

/// The direction ninety degrees to the right of `d`.
pub open spec fn spec_turn_right(d: MoveDirection) -> MoveDirection {
    match d {
        MoveDirection::Up => MoveDirection::Right,
        MoveDirection::Right => MoveDirection::Down,
        MoveDirection::Down => MoveDirection::Left,
        MoveDirection::Left => MoveDirection::Up,
    }
}

/// The direction opposite to `d`.
pub open spec fn spec_turn_around(d: MoveDirection) -> MoveDirection {
    match d {
        MoveDirection::Up => MoveDirection::Down,
        MoveDirection::Down => MoveDirection::Up,
        MoveDirection::Left => MoveDirection::Right,
        MoveDirection::Right => MoveDirection::Left,
    }
}

/// The first of the four candidate directions whose sensor channel
/// reports a free cell, if any. A sensed target counts as blocked: the
/// strategy keeps mapping territory instead of rushing to the goal.
pub open spec fn spec_first_free(
    sensors: SensorsStates,
    d0: MoveDirection,
    d1: MoveDirection,
    d2: MoveDirection,
    d3: MoveDirection,
) -> Option<MoveDirection> {
    if sensors.spec_cardinal(d0) is Free {
        Some(d0)
    } else if sensors.spec_cardinal(d1) is Free {
        Some(d1)
    } else if sensors.spec_cardinal(d2) is Free {
        Some(d2)
    } else if sensors.spec_cardinal(d3) is Free {
        Some(d3)
    } else {
        None
    }
}

/// The candidate order the wall follower tries at a step: on its first
/// move a fixed priority order, afterwards the left-hand rule around its
/// current facing.
pub open spec fn spec_wall_choice(
    sensors: SensorsStates,
    first_move: bool,
    facing: MoveDirection,
) -> Option<MoveDirection> {
    if first_move {
        spec_first_free(
            sensors,
            MoveDirection::Up,
            MoveDirection::Right,
            MoveDirection::Down,
            MoveDirection::Left,
        )
    } else {
        spec_first_free(
            sensors,
            spec_turn_left(facing),
            facing,
            spec_turn_right(facing),
            spec_turn_around(facing),
        )
    }
}

/// Wall follower exploration state: the current facing, whether the
/// first move is still pending, the set of cells visited, the recorded
/// start, and whether the loop has closed.
pub struct WallFollower {
    facing: MoveDirection,
    first_move: bool,
    visited: Vec<UnboundedPosition>,
    start_pos: Option<UnboundedPosition>,
    returned_to_start: bool,
}

impl WallFollower {
    /// The visited store holds each cell once.
    #[verifier::type_invariant]
    pub closed spec fn wf(self) -> bool {
        self.visited@.no_duplicates()
    }

    pub closed spec fn spec_facing(self) -> MoveDirection {
        self.facing
    }

    pub closed spec fn spec_first_move(self) -> bool {
        self.first_move
    }

    pub closed spec fn spec_visited(self) -> Set<UnboundedPosition> {
        self.visited@.to_set()
    }

    pub closed spec fn spec_start_pos(self) -> Option<UnboundedPosition> {
        self.start_pos
    }

    pub closed spec fn spec_returned(self) -> bool {
        self.returned_to_start
    }

    /// A fresh wall follower: facing up, first move pending, nothing
    /// visited.
    pub fn new() -> (r: Self)
        ensures
            r.spec_facing() == MoveDirection::Up,
            r.spec_first_move(),
            r.spec_visited() == Set::<UnboundedPosition>::empty(),
            r.spec_start_pos() is None,
            !r.spec_returned(),
    {
        proof {
            assert(Seq::<UnboundedPosition>::empty().to_set() =~= Set::empty());
        }
        Self {
            facing: MoveDirection::Up,
            first_move: true,
            visited: Vec::new(),
            start_pos: None,
            returned_to_start: false,
        }
    }

    fn turn_left(&self) -> (r: MoveDirection)
        ensures
            r == spec_turn_left(self.spec_facing()),
    {
        match self.facing {
            MoveDirection::Up => MoveDirection::Left,
            MoveDirection::Left => MoveDirection::Down,
            MoveDirection::Down => MoveDirection::Right,
            MoveDirection::Right => MoveDirection::Up,
        }
    }

    fn turn_right(&self) -> (r: MoveDirection)
        ensures
            r == spec_turn_right(self.spec_facing()),
    {
        match self.facing {
            MoveDirection::Up => MoveDirection::Right,
            MoveDirection::Right => MoveDirection::Down,
            MoveDirection::Down => MoveDirection::Left,
            MoveDirection::Left => MoveDirection::Up,
        }
    }

    fn turn_around(&self) -> (r: MoveDirection)
        ensures
            r == spec_turn_around(self.spec_facing()),
    {
        match self.facing {
            MoveDirection::Up => MoveDirection::Down,
            MoveDirection::Down => MoveDirection::Up,
            MoveDirection::Left => MoveDirection::Right,
            MoveDirection::Right => MoveDirection::Left,
        }
    }

    /// Whether the sensors report the adjacent cell in `direction` free.
    fn can_move(&self, direction: MoveDirection, sensors: &SensorsStates) -> (r: bool)
        ensures
            r == (sensors.spec_cardinal(direction) is Free),
    {
        let sensor_state = sensors.cardinal(direction);
        matches!(sensor_state, SensorState::Free)
    }

    /// Marks a cell visited, leaving the rest of the state unchanged.
    fn record_visit(&mut self, pos: UnboundedPosition)
        ensures
            final(self).spec_visited() == old(self).spec_visited().insert(pos),
            final(self).spec_facing() == old(self).spec_facing(),
            final(self).spec_first_move() == old(self).spec_first_move(),
            final(self).spec_start_pos() == old(self).spec_start_pos(),
            final(self).spec_returned() == old(self).spec_returned(),
            final(self).spec_visited().len() == old(self).spec_visited().len() + (
            if old(self).spec_visited().contains(pos) {
                0int
            } else {
                1int
            }),
            final(self).spec_visited().finite(),
    {
        proof {
            use_type_invariant(&*self);
            broadcast use vstd::set::group_set_axioms;

            self.visited@.unique_seq_to_set();
        }
        let mut found = false;
        let mut i: usize = 0;
        while i < self.visited.len()
            invariant
                i <= self.visited@.len(),
                found == exists|j: int| 0 <= j < i && self.visited@[j] == pos,
            decreases self.visited@.len() - i,
        {
            if self.visited[i] == pos {
                found = true;
            }
            i = i + 1;
        }
        proof {
            assert(found == self.visited@.to_set().contains(pos));
        }
        if !found {
            let ghost pre = self.visited@;
            let mut v: Vec<UnboundedPosition> = Vec::new();
            std::mem::swap(&mut v, &mut self.visited);
            v.push(pos);
            self.visited = v;
            proof {
                assert(self.visited@ == pre.push(pos));
                crate::maze::unbounded::lemma_to_set_push(pre, pos);
                self.visited@.unique_seq_to_set();
            }
        } else {
            proof {
                assert(self.visited@.to_set() =~= self.visited@.to_set().insert(pos));
            }
        }
    }
}

impl ExplorationAlgorithm for WallFollower {
    /// One wall-follower step. The cell is marked visited and the start
    /// recorded; the call at which the robot stands on its recorded
    /// start having visited more than one cell reports completion, as
    /// does every later call. Otherwise the move returned is exactly the
    /// left-hand-rule choice, and the facing follows it; where all four
    /// directions are sensed blocked, the robot is surrounded.
    fn next_move(
        &mut self,
        current_pos: UnboundedPosition,
        sensors: &SensorsStates,
        _maze: &UnboundedMaze,
    ) -> (r: Result<Option<MoveDirection>, SolverError>)
        ensures
            final(self).spec_visited() == old(self).spec_visited().insert(current_pos),
            final(self).spec_start_pos() == if old(self).spec_start_pos() is None {
                Some(current_pos)
            } else {
                old(self).spec_start_pos()
            },
            final(self).spec_returned() == (old(self).spec_returned()
                || (final(self).spec_start_pos() == Some(current_pos)
                && final(self).spec_visited().len() > 1)),
            (r == Ok::<Option<MoveDirection>, SolverError>(None)) == final(self).spec_returned(),
            final(self).spec_returned() ==> {
                &&& final(self).spec_facing() == old(self).spec_facing()
                &&& final(self).spec_first_move() == old(self).spec_first_move()
            },
            !final(self).spec_returned() ==> {
                let choice = spec_wall_choice(*sensors, old(self).spec_first_move(), old(self).spec_facing());
                &&& !final(self).spec_first_move()
                &&& (choice is None ==> r == Err::<Option<MoveDirection>, SolverError>(
                    SolverError::Surrounded,
                ) && final(self).spec_facing() == old(self).spec_facing())
                &&& (choice is Some ==> r == Ok::<Option<MoveDirection>, SolverError>(
                    Some(choice->0),
                ) && final(self).spec_facing() == choice->0)
            },
    {
        proof {
            use_type_invariant(&*self);
        }
        if self.start_pos.is_none() {
            self.start_pos = Some(current_pos);
        }
        self.record_visit(current_pos);
        if self.returned_to_start {
            return Ok(None);
        }
        let visited_more_than_one = self.visited.len() > 1;
        proof {
            use_type_invariant(&*self);
            self.visited@.unique_seq_to_set();
        }
        if let Some(start) = self.start_pos {
            if start == current_pos && visited_more_than_one {
                self.returned_to_start = true;
                return Ok(None);
            }
        }
        if self.first_move {
            self.first_move = false;
            if self.can_move(MoveDirection::Up, sensors) {
                self.facing = MoveDirection::Up;
                return Ok(Some(MoveDirection::Up));
            }
            if self.can_move(MoveDirection::Right, sensors) {
                self.facing = MoveDirection::Right;
                return Ok(Some(MoveDirection::Right));
            }
            if self.can_move(MoveDirection::Down, sensors) {
                self.facing = MoveDirection::Down;
                return Ok(Some(MoveDirection::Down));
            }
            if self.can_move(MoveDirection::Left, sensors) {
                self.facing = MoveDirection::Left;
                return Ok(Some(MoveDirection::Left));
            }
            return Err(SolverError::Surrounded);
        }
        let left = self.turn_left();
        let straight = self.facing;
        let right = self.turn_right();
        let back = self.turn_around();
        self.first_move = false;
        let next_dir = if self.can_move(left, sensors) {
            left
        } else if self.can_move(straight, sensors) {
            straight
        } else if self.can_move(right, sensors) {
            right
        } else if self.can_move(back, sensors) {
            back
        } else {
            return Err(SolverError::Surrounded);
        };
        self.facing = next_dir;
        Ok(Some(next_dir))
    }

    fn name(&self) -> (r: &'static str)
        ensures
            r@ == "Wall Follower (Left-Hand Rule)"@,
    {
        "Wall Follower (Left-Hand Rule)"
    }

    /// Returns to the initial state: facing up, first move pending,
    /// nothing visited, no start recorded.
    fn reset(&mut self)
        ensures
            final(self).spec_facing() == MoveDirection::Up,
            final(self).spec_first_move(),
            final(self).spec_visited() == Set::<UnboundedPosition>::empty(),
            final(self).spec_start_pos() is None,
            !final(self).spec_returned(),
    {
        proof {
            use_type_invariant(&*self);
        }
        self.facing = MoveDirection::Up;
        self.first_move = true;
        self.visited = Vec::new();
        self.start_pos = None;
        self.returned_to_start = false;
        proof {
            assert(Seq::<UnboundedPosition>::empty().to_set() =~= Set::empty());
        }
    }
}

} // verus!
