//! The blind solver: the robot explores by sensors alone, growing a
//! sparse unbounded maze and caching every reading; once the exploration
//! strategy reports completion and a target sighting exists, the
//! observed bounding box is normalised into a bounded maze, an optimal
//! route is planned over it, and the embedding program resets the maze
//! and executes the route.
//!
//! The remote calls — reading the sensor stream, issuing moves,
//! resetting — live in the embedding program. The state machine here
//! makes every decision: which sensors to use (cached or fresh), how the
//! maze grows, when a target sighting is recorded, when exploration
//! ends, and how a move outcome changes the state.

use vstd::prelude::*;
use crate::error::SolverError;
use crate::maze::bounded::Maze;
use crate::maze::cell::Cell;
use crate::maze::position::Position;
use crate::maze::unbounded::{spec_in_sensor_footprint, UnboundedMaze, UnboundedPosition};
use crate::types::{MoveDirection, SensorState, SensorsStates};
use crate::algorithms::exploration::traits::ExplorationAlgorithm;
use crate::algorithms::pathfinding::route::{path_ok, reachable};
use crate::algorithms::pathfinding::traits::PathfindingAlgorithm;

verus! {

/// The exploration step ceiling: more steps than this aborts the run as
/// a possible infinite loop.
pub const STEP_CEILING: usize = 10000;

/// How far a coordinate can drift from the origin: one cell per step.
pub open spec fn spec_coord_bounded(p: UnboundedPosition, steps: int) -> bool {
    &&& -steps <= p.row <= steps
    &&& -steps <= p.col <= steps
}

/// The first target sighting in one sensor reading, scanning the
/// channels in the fixed order up, down, left, right, up-left, up-right,
/// down-left, down-right; the position reported is the adjacent cell in
/// that direction.
pub open spec fn spec_detect_target(
    current: UnboundedPosition,
    sensors: SensorsStates,
) -> Option<UnboundedPosition> {
    if sensors.up is Target {
        Some(current.spec_offset(-1, 0))
    } else if sensors.down is Target {
        Some(current.spec_offset(1, 0))
    } else if sensors.left is Target {
        Some(current.spec_offset(0, -1))
    } else if sensors.right is Target {
        Some(current.spec_offset(0, 1))
    } else if sensors.up_left is Target {
        Some(current.spec_offset(-1, -1))
    } else if sensors.up_right is Target {
        Some(current.spec_offset(-1, 1))
    } else if sensors.down_left is Target {
        Some(current.spec_offset(1, -1))
    } else if sensors.down_right is Target {
        Some(current.spec_offset(1, 1))
    } else {
        None
    }
}

/// The reading an exploration step interprets for the current position:
/// the cached one where it exists, else the fresh one handed in.
pub open spec fn spec_sensors_used(
    pre: ExplorationState,
    fresh: Option<&SensorsStates>,
) -> SensorsStates {
    if pre.spec_cached(pre.spec_current_pos()) is Some {
        pre.spec_cached(pre.spec_current_pos())->0
    } else {
        *fresh->0
    }
}

/// The mutable state of one blind exploration run: the maze grown so
/// far, the sensor cache, the robot's position in the unbounded frame,
/// the first target sighting, and the step count.
pub struct ExplorationState {
    maze: UnboundedMaze,
    cache: Vec<(UnboundedPosition, SensorsStates)>,
    current_pos: UnboundedPosition,
    target_pos: Option<UnboundedPosition>,
    steps: usize,
}

impl ExplorationState {
    /// The cache holds each position once, and the robot stays within
    /// one cell per step of the origin, inside the step ceiling.
    #[verifier::type_invariant]
    pub closed spec fn wf(self) -> bool {
        &&& forall|k1: int, k2: int|
            0 <= k1 < self.cache@.len() && 0 <= k2 < self.cache@.len() && k1 != k2 ==> (
            #[trigger] self.cache@[k1]).0 != (#[trigger] self.cache@[k2]).0
        &&& spec_coord_bounded(self.current_pos, self.steps as int)
        &&& self.steps <= STEP_CEILING + 1
    }

    pub closed spec fn spec_maze(self) -> UnboundedMaze {
        self.maze
    }

    pub closed spec fn spec_current_pos(self) -> UnboundedPosition {
        self.current_pos
    }

    pub closed spec fn spec_target_pos(self) -> Option<UnboundedPosition> {
        self.target_pos
    }

    pub closed spec fn spec_steps(self) -> int {
        self.steps as int
    }

    /// The reading cached for a position, if any.
    pub closed spec fn spec_cached(self, p: UnboundedPosition) -> Option<SensorsStates> {
        if exists|k: int| 0 <= k < self.cache@.len() && (#[trigger] self.cache@[k]).0 == p {
            let k = choose|k: int| 0 <= k < self.cache@.len() && (#[trigger] self.cache@[k]).0 == p;
            Some(self.cache@[k].1)
        } else {
            None
        }
    }

    /// Starts an exploration run at the origin from its first sensor
    /// reading: the origin is written as the robot's cell, the eight
    /// surrounding cells are filled in, and the reading is cached.
    pub fn begin(initial_sensors: &SensorsStates) -> (r: Self)
        ensures
            r.spec_current_pos() == (UnboundedPosition { row: 0isize, col: 0isize }),
            r.spec_target_pos() is None,
            r.spec_steps() == 0,
            r.spec_cached(UnboundedPosition { row: 0isize, col: 0isize }) == Some(
                *initial_sensors,
            ),
            r.spec_maze().spec_get(UnboundedPosition { row: 0isize, col: 0isize }) == Cell::Robot,
    {
        let origin = UnboundedPosition::new(0, 0);
        let mut maze = UnboundedMaze::new();
        maze.set(origin, Cell::Robot);
        maze.update_from_sensors(origin, initial_sensors);
        let mut cache: Vec<(UnboundedPosition, SensorsStates)> = Vec::new();
        cache.push((origin, *initial_sensors));
        let r = Self { maze, cache, current_pos: origin, target_pos: None, steps: 0 };
        proof {
            assert(r.spec_cached(origin) == Some(*initial_sensors)) by {
                assert(r.cache@[0].0 == origin);
                let k = choose|k: int|
                    0 <= k < r.cache@.len() && (#[trigger] r.cache@[k]).0 == origin;
                assert(k == 0);
            }
        }
        r
    }

    /// The robot's current position.
    pub fn current_pos(&self) -> (r: UnboundedPosition)
        ensures
            r == self.spec_current_pos(),
    {
        self.current_pos
    }

    /// The first target sighting recorded so far.
    pub fn target_pos(&self) -> (r: Option<UnboundedPosition>)
        ensures
            r == self.spec_target_pos(),
    {
        self.target_pos
    }

    /// The number of exploration moves taken so far.
    pub fn steps(&self) -> (r: usize)
        ensures
            r == self.spec_steps(),
    {
        self.steps
    }

    /// A reference to the maze discovered so far.
    pub fn maze(&self) -> (r: &UnboundedMaze)
        ensures
            *r == self.spec_maze(),
    {
        &self.maze
    }

    /// Whether the current position was visited before, so that its
    /// cached reading will be reused and no fresh reading is needed.
    pub fn has_cached_sensors(&self) -> (r: bool)
        ensures
            r == (self.spec_cached(self.spec_current_pos()) is Some),
    {
        proof {
            use_type_invariant(self);
        }
        self.find_cached(self.current_pos).is_some()
    }

    /// The cache index of a position.
    fn find_cached(&self, pos: UnboundedPosition) -> (r: Option<usize>)
        requires
            self.wf(),
        ensures
            r is Some ==> r->0 < self.cache@.len() && self.cache@[r->0 as int].0 == pos
                && self.spec_cached(pos) == Some(self.cache@[r->0 as int].1),
            r is None ==> self.spec_cached(pos) is None,
    {
        let mut i: usize = 0;
        while i < self.cache.len()
            invariant
                self.wf(),
                i <= self.cache@.len(),
                forall|j: int| 0 <= j < i ==> (#[trigger] self.cache@[j]).0 != pos,
            decreases self.cache@.len() - i,
        {
            if self.cache[i].0 == pos {
                proof {
                    assert(self.cache@[i as int].0 == pos);
                    assert(exists|k: int|
                        0 <= k < self.cache@.len() && (#[trigger] self.cache@[k]).0 == pos);
                    let k = choose|k: int|
                        0 <= k < self.cache@.len() && (#[trigger] self.cache@[k]).0 == pos;
                    assert(k == i);
                }
                return Some(i);
            }
            i = i + 1;
        }
        None
    }

    /// One exploration decision. Picks the sensors for the current
    /// position — the cached reading where one exists, else the fresh
    /// one handed in (its absence means the sensor stream closed) —
    /// writes them into the maze, records a first target sighting, and
    /// asks the exploration strategy for the next move. `Ok(None)` means
    /// exploration is complete.
    #[verifier::rlimit(60)]
    pub fn explore_step<E: ExplorationAlgorithm>(
        &mut self,
        exploration: &mut E,
        fresh: Option<&SensorsStates>,
    ) -> (r: Result<Option<MoveDirection>, SolverError>)
        ensures
            final(self).spec_current_pos() == old(self).spec_current_pos(),
            final(self).spec_steps() == old(self).spec_steps(),
            old(self).spec_cached(old(self).spec_current_pos()) is None && fresh is None ==> r
                == Err::<Option<MoveDirection>, SolverError>(SolverError::ChannelClosed)
                && *final(self) == *old(self),
            !(old(self).spec_cached(old(self).spec_current_pos()) is None && fresh is None) ==> {
                let pos = old(self).spec_current_pos();
                let used = spec_sensors_used(*old(self), fresh);
                &&& final(self).spec_cached(pos) == Some(used)
                &&& forall|q: UnboundedPosition|
                    q != pos ==> final(self).spec_cached(q) == old(self).spec_cached(q)
            },
            !(old(self).spec_cached(old(self).spec_current_pos()) is None && fresh is None) ==> {
                let pos = old(self).spec_current_pos();
                let used = spec_sensors_used(*old(self), fresh);
                &&& final(self).spec_maze().spec_get(pos) == Cell::Robot
                &&& final(self).spec_maze().spec_get(pos.spec_offset(-1, 0))
                    == Cell::spec_from_sensor(used.up)
                &&& final(self).spec_maze().spec_get(pos.spec_offset(1, 0))
                    == Cell::spec_from_sensor(used.down)
                &&& final(self).spec_maze().spec_get(pos.spec_offset(0, -1))
                    == Cell::spec_from_sensor(used.left)
                &&& final(self).spec_maze().spec_get(pos.spec_offset(0, 1))
                    == Cell::spec_from_sensor(used.right)
                &&& final(self).spec_maze().spec_get(pos.spec_offset(-1, -1))
                    == Cell::spec_from_sensor(used.up_left)
                &&& final(self).spec_maze().spec_get(pos.spec_offset(-1, 1))
                    == Cell::spec_from_sensor(used.up_right)
                &&& final(self).spec_maze().spec_get(pos.spec_offset(1, -1))
                    == Cell::spec_from_sensor(used.down_left)
                &&& final(self).spec_maze().spec_get(pos.spec_offset(1, 1))
                    == Cell::spec_from_sensor(used.down_right)
            },
            !(old(self).spec_cached(old(self).spec_current_pos()) is None && fresh is None) ==> {
                let pos = old(self).spec_current_pos();
                forall|q: UnboundedPosition|
                    !spec_in_sensor_footprint(pos, q) ==> final(self).spec_maze().spec_get(q)
                        == old(self).spec_maze().spec_get(q)
            },
            !(old(self).spec_cached(old(self).spec_current_pos()) is None && fresh is None) ==> {
                let pos = old(self).spec_current_pos();
                let used = spec_sensors_used(*old(self), fresh);
                final(self).spec_target_pos() == if old(self).spec_target_pos() is Some {
                    old(self).spec_target_pos()
                } else {
                    spec_detect_target(pos, used)
                }
            },
            !(old(self).spec_cached(old(self).spec_current_pos()) is None && fresh is None) ==> {
                let pos = old(self).spec_current_pos();
                r matches Ok(Some(d)) ==> final(self).spec_maze().spec_is_walkable(
                    pos.spec_step(d),
                )
            },
    {
        proof {
            use_type_invariant(&*self);
        }
        let pos = self.current_pos;
        let sensors: SensorsStates = match self.find_cached(pos) {
            Some(i) => self.cache[i].1,
            None => {
                match fresh {
                    Some(s) => {
                        let ghost pre = self.cache@;
                        let mut c: Vec<(UnboundedPosition, SensorsStates)> = Vec::new();
                        std::mem::swap(&mut c, &mut self.cache);
                        c.push((pos, *s));
                        self.cache = c;
                        proof {
                            let n = self.cache@.len() - 1;
                            assert(self.cache@[n].0 == pos);
                            assert forall|q: UnboundedPosition| q != pos implies self.spec_cached(
                                q,
                            ) == old(self).spec_cached(q) by {
                                lemma_cache_push_other(*old(self), *self, pos, *s, q);
                            }
                            assert(self.spec_cached(pos) == Some(*s)) by {
                                let k = choose|k: int|
                                    0 <= k < self.cache@.len() && (#[trigger] self.cache@[k]).0
                                        == pos;
                                if k != n {
                                    assert(pre[k].0 == pos);
                                    assert(old(self).spec_cached(pos) is Some);
                                }
                            }
                        }
                        *s
                    },
                    None => {
                        return Err(SolverError::ChannelClosed);
                    },
                }
            },
        };
        proof {
            use_type_invariant(&*self);
        }
        let ghost s_cached = *self;
        self.update_maze_from_sensors(&sensors);
        proof {
            use_type_invariant(&*self);
            assert(self.spec_cached(pos) == s_cached.spec_cached(pos));
            assert forall|q: UnboundedPosition| q != pos implies self.spec_cached(q)
                == s_cached.spec_cached(q) by {}
        }
        let ghost s_mazed = *self;
        if self.target_pos.is_none() {
            self.target_pos = Self::detect_target_in_sensors(pos, &sensors);
        }
        proof {
            assert(self.cache == s_mazed.cache);
            assert(self.maze == s_mazed.maze);
            assert forall|q: UnboundedPosition| self.spec_cached(q) == s_mazed.spec_cached(
                q,
            ) by {
                lemma_cached_same_store(s_mazed, *self, q);
            }
            assert forall|q: UnboundedPosition| self.spec_maze().spec_get(q)
                == s_mazed.spec_maze().spec_get(q) by {}
        }
        let r = exploration.next_move(pos, &sensors, &self.maze);
        proof {
            assert(sensors == spec_sensors_used(*old(self), fresh));
            assert(self.spec_cached(pos) == Some(sensors));
            assert forall|q: UnboundedPosition| q != pos implies self.spec_cached(q) == old(
                self,
            ).spec_cached(q) by {}
            if r is Ok && r->Ok_0 is Some {
                let d = r->Ok_0->0;
                match d {
                    MoveDirection::Up => {
                        assert(pos.spec_step(d) == pos.spec_offset(-1, 0));
                    },
                    MoveDirection::Down => {
                        assert(pos.spec_step(d) == pos.spec_offset(1, 0));
                    },
                    MoveDirection::Left => {
                        assert(pos.spec_step(d) == pos.spec_offset(0, -1));
                    },
                    MoveDirection::Right => {
                        assert(pos.spec_step(d) == pos.spec_offset(0, 1));
                    },
                }
            }
        }
        match r {
            Ok(mv) => Ok(mv),
            Err(e) => Err(e),
        }
    }

    /// Writes the current reading into the maze; split out so that the
    /// borrow of the cache above stays simple.
    fn update_maze_from_sensors(&mut self, sensors: &SensorsStates)
        ensures
            final(self).spec_current_pos() == old(self).spec_current_pos(),
            final(self).spec_steps() == old(self).spec_steps(),
            final(self).spec_target_pos() == old(self).spec_target_pos(),
            forall|q: UnboundedPosition|
                final(self).spec_cached(q) == old(self).spec_cached(q),
            final(self).spec_maze().spec_get(old(self).spec_current_pos()) == Cell::Robot,
            final(self).spec_maze().spec_get(
                old(self).spec_current_pos().spec_offset(-1, 0),
            ) == Cell::spec_from_sensor(sensors.up),
            final(self).spec_maze().spec_get(
                old(self).spec_current_pos().spec_offset(1, 0),
            ) == Cell::spec_from_sensor(sensors.down),
            final(self).spec_maze().spec_get(
                old(self).spec_current_pos().spec_offset(0, -1),
            ) == Cell::spec_from_sensor(sensors.left),
            final(self).spec_maze().spec_get(
                old(self).spec_current_pos().spec_offset(0, 1),
            ) == Cell::spec_from_sensor(sensors.right),
            final(self).spec_maze().spec_get(
                old(self).spec_current_pos().spec_offset(-1, -1),
            ) == Cell::spec_from_sensor(sensors.up_left),
            final(self).spec_maze().spec_get(
                old(self).spec_current_pos().spec_offset(-1, 1),
            ) == Cell::spec_from_sensor(sensors.up_right),
            final(self).spec_maze().spec_get(
                old(self).spec_current_pos().spec_offset(1, -1),
            ) == Cell::spec_from_sensor(sensors.down_left),
            final(self).spec_maze().spec_get(
                old(self).spec_current_pos().spec_offset(1, 1),
            ) == Cell::spec_from_sensor(sensors.down_right),
            forall|q: UnboundedPosition|
                !spec_in_sensor_footprint(old(self).spec_current_pos(), q) ==> final(self).spec_maze().spec_get(q) == old(self).spec_maze().spec_get(q),
    {
        proof {
            use_type_invariant(&*self);
        }
        let pos = self.current_pos;
        let mut maze = UnboundedMaze::new();
        std::mem::swap(&mut maze, &mut self.maze);
        maze.update_from_sensors(pos, sensors);
        self.maze = maze;
    }

    /// Applies the outcome of one issued move: a failed move aborts with
    /// the failing step index and direction; a successful one vacates
    /// the robot's previous cell, occupies the new one, and counts the
    /// step against the ceiling.
    pub fn commit_move(&mut self, direction: MoveDirection, success: bool) -> (r: Result<
        (),
        SolverError,
    >)
        ensures
            !success ==> r == Err::<(), SolverError>(
                SolverError::MoveFailure {
                    step: (old(self).spec_steps() + 1) as usize,
                    direction,
                },
            ) && *final(self) == *old(self),
            success && old(self).spec_steps() > STEP_CEILING ==> r == Err::<(), SolverError>(
                SolverError::LoopGuard,
            ) && *final(self) == *old(self),
            success && old(self).spec_steps() <= STEP_CEILING ==> {
                &&& final(self).spec_current_pos() == old(self).spec_current_pos().spec_step(
                    direction,
                )
                &&& final(self).spec_steps() == old(self).spec_steps() + 1
                &&& final(self).spec_target_pos() == old(self).spec_target_pos()
                &&& forall|q: UnboundedPosition|
                    final(self).spec_cached(q) == old(self).spec_cached(q)
                &&& final(self).spec_maze().spec_get(old(self).spec_current_pos()) == Cell::Free
                &&& final(self).spec_maze().spec_get(final(self).spec_current_pos())
                    == Cell::Robot
                &&& forall|q: UnboundedPosition|
                    q != old(self).spec_current_pos() && q != final(self).spec_current_pos()
                        ==> final(self).spec_maze().spec_get(q) == old(self).spec_maze().spec_get(
                        q,
                    )
                &&& ((r == Err::<(), SolverError>(SolverError::LoopGuard)) == (final(self).spec_steps() > STEP_CEILING))
                &&& (r is Ok || r == Err::<(), SolverError>(SolverError::LoopGuard))
            },
    {
        proof {
            use_type_invariant(&*self);
        }
        if !success {
            return Err(SolverError::MoveFailure { step: self.steps + 1, direction });
        }
        if self.steps > STEP_CEILING {
            return Err(SolverError::LoopGuard);
        }
        let old_pos = self.current_pos;
        let new_pos = old_pos.move_in_direction(direction);
        proof {
            crate::maze::unbounded::lemma_step_changes_unbounded(old_pos, direction);
        }
        let mut maze = UnboundedMaze::new();
        std::mem::swap(&mut maze, &mut self.maze);
        maze.set(old_pos, Cell::Free);
        maze.set(new_pos, Cell::Robot);
        self.maze = maze;
        self.steps = self.steps + 1;
        self.current_pos = new_pos;
        if self.steps > STEP_CEILING {
            return Err(SolverError::LoopGuard);
        }
        Ok(())
    }

    /// The first target sighting in one reading: scans the eight
    /// channels in a fixed order and reports the coordinate of the
    /// adjacent cell of the first channel sensing the target.
    pub fn detect_target_in_sensors(
        current: UnboundedPosition,
        sensors: &SensorsStates,
    ) -> (r: Option<UnboundedPosition>)
        requires
            isize::MIN + 1 < current.row < isize::MAX - 1,
            isize::MIN + 1 < current.col < isize::MAX - 1,
        ensures
            r == spec_detect_target(current, *sensors),
    {
        if matches!(sensors.up, SensorState::Target) {
            Some(UnboundedPosition::new(current.row - 1, current.col))
        } else if matches!(sensors.down, SensorState::Target) {
            Some(UnboundedPosition::new(current.row + 1, current.col))
        } else if matches!(sensors.left, SensorState::Target) {
            Some(UnboundedPosition::new(current.row, current.col - 1))
        } else if matches!(sensors.right, SensorState::Target) {
            Some(UnboundedPosition::new(current.row, current.col + 1))
        } else if matches!(sensors.up_left, SensorState::Target) {
            Some(UnboundedPosition::new(current.row - 1, current.col - 1))
        } else if matches!(sensors.up_right, SensorState::Target) {
            Some(UnboundedPosition::new(current.row - 1, current.col + 1))
        } else if matches!(sensors.down_left, SensorState::Target) {
            Some(UnboundedPosition::new(current.row + 1, current.col - 1))
        } else if matches!(sensors.down_right, SensorState::Target) {
            Some(UnboundedPosition::new(current.row + 1, current.col + 1))
        } else {
            None
        }
    }
}

/// Two states over the same cache store agree on every cached reading.
proof fn lemma_cached_same_store(a: ExplorationState, b: ExplorationState, q: UnboundedPosition)
    requires
        a.cache == b.cache,
    ensures
        a.spec_cached(q) == b.spec_cached(q),
{
    assert(a.cache@ == b.cache@);
    if exists|k: int| 0 <= k < a.cache@.len() && (#[trigger] a.cache@[k]).0 == q {
        let k = choose|k: int| 0 <= k < a.cache@.len() && (#[trigger] a.cache@[k]).0 == q;
        assert(b.cache@[k].0 == q);
        let k2 = choose|k2: int| 0 <= k2 < b.cache@.len() && (#[trigger] b.cache@[k2]).0 == q;
        assert(a.cache@[k2].0 == q);
    } else {
        if exists|k: int| 0 <= k < b.cache@.len() && (#[trigger] b.cache@[k]).0 == q {
            let k2 = choose|k2: int| 0 <= k2 < b.cache@.len() && (#[trigger] b.cache@[k2]).0 == q;
            assert(a.cache@[k2].0 == q);
        }
    }
}

/// Pushing a fresh cache entry leaves every other position's cached
/// reading unchanged.
proof fn lemma_cache_push_other(
    pre: ExplorationState,
    post: ExplorationState,
    pos: UnboundedPosition,
    s: SensorsStates,
    q: UnboundedPosition,
)
    requires
        q != pos,
        forall|k1: int, k2: int|
            0 <= k1 < pre.cache@.len() && 0 <= k2 < pre.cache@.len() && k1 != k2 ==> (
            #[trigger] pre.cache@[k1]).0 != (#[trigger] pre.cache@[k2]).0,
        post.cache@ == pre.cache@.push((pos, s)),
    ensures
        post.spec_cached(q) == pre.spec_cached(q),
{
    let n = pre.cache@.len() as int;
    if pre.spec_cached(q) is Some {
        let k = choose|k: int| 0 <= k < pre.cache@.len() && (#[trigger] pre.cache@[k]).0 == q;
        assert(post.cache@[k].0 == q);
        let k2 = choose|k2: int| 0 <= k2 < post.cache@.len() && (#[trigger] post.cache@[k2]).0 == q;
        assert(k2 != n);
        assert(pre.cache@[k2].0 == q);
        assert(k2 == k);
        assert(post.spec_cached(q) == Some(post.cache@[k2].1));
        assert(pre.spec_cached(q) == Some(pre.cache@[k].1));
    } else {
        if post.spec_cached(q) is Some {
            let k2 = choose|k2: int|
                0 <= k2 < post.cache@.len() && (#[trigger] post.cache@[k2]).0 == q;
            assert(k2 != n);
            assert(pre.cache@[k2].0 == q);
        }
    }
}

/// A blind solver: an exploration strategy, a pathfinding strategy for
/// the optimal route after discovery, and the inter-step delay the
/// embedding program applies.
pub struct BlindSolver<E: ExplorationAlgorithm, P: PathfindingAlgorithm> {
    exploration: E,
    pathfinding: P,
    delay_ms: u64,
}

impl<E: ExplorationAlgorithm, P: PathfindingAlgorithm> BlindSolver<E, P> {
    pub closed spec fn spec_delay_ms(self) -> u64 {
        self.delay_ms
    }

    pub fn new(exploration: E, pathfinding: P, delay_ms: u64) -> (r: Self)
        ensures
            r.spec_delay_ms() == delay_ms,
    {
        Self { exploration, pathfinding, delay_ms }
    }

    /// The delay to apply between executed moves, in milliseconds.
    pub fn delay_ms(&self) -> (r: u64)
        ensures
            r == self.spec_delay_ms(),
    {
        self.delay_ms
    }

    /// Returns the exploration strategy to its initial state; required
    /// between runs against a freshly reset maze.
    pub fn reset_exploration(&mut self) {
        self.exploration.reset();
    }

    /// One exploration decision, driving this solver's exploration
    /// strategy over the run state; see [`ExplorationState::explore_step`].
    pub fn explore_step(&mut self, st: &mut ExplorationState, fresh: Option<&SensorsStates>) -> (r:
        Result<Option<MoveDirection>, SolverError>)
        ensures
            final(st).spec_current_pos() == old(st).spec_current_pos(),
            final(st).spec_steps() == old(st).spec_steps(),
            old(st).spec_cached(old(st).spec_current_pos()) is None && fresh is None ==> r
                == Err::<Option<MoveDirection>, SolverError>(SolverError::ChannelClosed),
            !(old(st).spec_cached(old(st).spec_current_pos()) is None && fresh is None) ==> {
                let pos = old(st).spec_current_pos();
                let used = if old(st).spec_cached(pos) is Some {
                    old(st).spec_cached(pos)->0
                } else {
                    *fresh->0
                };
                &&& final(st).spec_cached(pos) == Some(used)
                &&& final(st).spec_maze().spec_get(pos) == Cell::Robot
                &&& final(st).spec_target_pos() == if old(st).spec_target_pos() is Some {
                    old(st).spec_target_pos()
                } else {
                    spec_detect_target(pos, used)
                }
                &&& (r matches Ok(Some(d)) ==> final(st).spec_maze().spec_is_walkable(
                    pos.spec_step(d),
                ))
            },
    {
        st.explore_step(&mut self.exploration, fresh)
    }

    /// Normalises the observed bounding box of the unbounded maze into a
    /// zero-based bounded maze, translating the robot's logical origin
    /// and the sighted target into the new frame. Every observed cell
    /// keeps its identity at its translated coordinate; unobserved cells
    /// inside the box read `Unknown`. Fails where nothing was observed,
    /// where the box exceeds the bounded encoding, or where origin or
    /// target fall outside it.
    pub fn convert_to_bounded(&self, unbounded: &UnboundedMaze, target: UnboundedPosition) -> (r:
        Result<(Maze, Position, Position), SolverError>)
        ensures
            unbounded.spec_len() == 0 ==> r == Err::<(Maze, Position, Position), SolverError>(
                SolverError::Shape,
            ),
            unbounded.spec_len() > 0 ==> exists|min_row: int, max_row: int, min_col: int, max_col: int|
                #[trigger] spec_bounds_exact(*unbounded, min_row, max_row, min_col, max_col)
                    && spec_convert_result(
                    *unbounded,
                    target,
                    r,
                    min_row,
                    max_row,
                    min_col,
                    max_col,
                ),
    {
        let (min_row, max_row, min_col, max_col) = match unbounded.get_bounds() {
            Some(b) => b,
            None => {
                return Err(SolverError::Shape);
            },
        };
        proof {
            use_type_invariant(unbounded);
            let ghost wit_max_r = choose|q: UnboundedPosition|
                #[trigger] unbounded.spec_contains(q) && q.row == max_row;
            unbounded.lemma_contained_in_range(wit_max_r);
            let ghost wit_max_c = choose|q: UnboundedPosition|
                #[trigger] unbounded.spec_contains(q) && q.col == max_col;
            unbounded.lemma_contained_in_range(wit_max_c);
            let ghost wit_min_r = choose|q: UnboundedPosition|
                #[trigger] unbounded.spec_contains(q) && q.row == min_row;
            unbounded.lemma_contained_in_range(wit_min_r);
            let ghost wit_min_c = choose|q: UnboundedPosition|
                #[trigger] unbounded.spec_contains(q) && q.col == min_col;
            unbounded.lemma_contained_in_range(wit_min_c);
        }
        let height_wide: i128 = max_row as i128 - min_row as i128 + 1;
        let width_wide: i128 = max_col as i128 - min_col as i128 + 1;
        if height_wide > 255 || width_wide > 255 {
            proof {
                lemma_convert_err_witness(*unbounded, target, min_row as int, max_row as int, min_col as int, max_col as int);
            }
            return Err(SolverError::Shape);
        }
        if min_row > 0 || max_row < 0 || min_col > 0 || max_col < 0 {
            proof {
                lemma_convert_err_witness(*unbounded, target, min_row as int, max_row as int, min_col as int, max_col as int);
            }
            return Err(SolverError::Shape);
        }
        if target.row < min_row || target.row > max_row || target.col < min_col || target.col
            > max_col {
            proof {
                lemma_convert_err_witness(*unbounded, target, min_row as int, max_row as int, min_col as int, max_col as int);
            }
            return Err(SolverError::Shape);
        }
        let height = height_wide as usize;
        let width = width_wide as usize;
        proof {
            assert(height * width == height_wide * width_wide) by (nonlinear_arith)
                requires
                    height == height_wide,
                    width == width_wide,
                    1 <= height_wide <= 255,
                    1 <= width_wide <= 255,
            ;
        }
        let mut grid: Vec<Cell> = Vec::new();
        let mut row: isize = min_row;
        while row <= max_row
            invariant
                min_row <= row,
                row <= max_row + 1,
                isize::MIN < min_row,
                max_row < isize::MAX,
                isize::MIN < min_col,
                max_col < isize::MAX,
                width == max_col - min_col + 1,
                height == max_row - min_row + 1,
                grid@.len() == (row - min_row) * width,
                forall|q: UnboundedPosition|
                    min_row <= q.row < row && min_col <= q.col <= max_col ==> grid@[(q.row
                        - min_row) * width + (q.col - min_col)] == #[trigger] unbounded.spec_get(
                        q,
                    ),
            decreases max_row - row + 1,
        {
            let mut col: isize = min_col;
            let ghost row_base = grid@.len() as int;
            proof {
                assert((row - min_row) * width >= 0) by (nonlinear_arith)
                    requires
                        row >= min_row,
                        width >= 0,
                ;
            }
            while col <= max_col
                invariant
                    min_row <= row <= max_row,
                    min_col <= col,
                    col <= max_col + 1,
                    isize::MIN < min_row,
                    max_row < isize::MAX,
                    isize::MIN < min_col,
                    max_col < isize::MAX,
                    width == max_col - min_col + 1,
                    row_base == (row - min_row) * width,
                    grid@.len() == row_base + (col - min_col),
                    forall|q: UnboundedPosition|
                        min_row <= q.row < row && min_col <= q.col <= max_col ==> grid@[(q.row
                            - min_row) * width + (q.col - min_col)] == #[trigger] unbounded.spec_get(
                            q,
                        ),
                    forall|c2: int|
                        min_col <= c2 < col ==> grid@[row_base + (c2 - min_col)]
                            == #[trigger] unbounded.spec_get(
                            UnboundedPosition { row: row, col: c2 as isize },
                        ),
                decreases max_col - col + 1,
            {
                let pos = UnboundedPosition::new(row, col);
                let cell = unbounded.get(pos);
                let ghost grid_pre = grid@;
                grid.push(cell);
                proof {
                    assert forall|q: UnboundedPosition|
                        min_row <= q.row < row && min_col <= q.col <= max_col implies grid@[(q.row
                            - min_row) * width + (q.col - min_col)] == #[trigger] unbounded.spec_get(
                        q,
                    ) by {
                        assert(0 <= (q.row - min_row) * width + (q.col - min_col) < row_base)
                            by (nonlinear_arith)
                            requires
                                min_row <= q.row,
                                q.row < row,
                                min_col <= q.col <= max_col,
                                width == max_col - min_col + 1,
                                row_base == (row - min_row) * width,
                        ;
                        assert(grid@[(q.row - min_row) * width + (q.col - min_col)] == grid_pre[(
                        q.row - min_row) * width + (q.col - min_col)]);
                    }
                }
                col = col + 1;
            }
            proof {
                assert((row + 1 - min_row) * width == (row - min_row) * width + width)
                    by (nonlinear_arith)
                ;
                assert forall|q: UnboundedPosition|
                    min_row <= q.row < row + 1 && min_col <= q.col <= max_col implies grid@[(q.row
                        - min_row) * width + (q.col - min_col)] == #[trigger] unbounded.spec_get(
                    q,
                ) by {
                    if q.row == row as int {
                        assert(q == (UnboundedPosition { row: row, col: q.col as int as isize }));
                        assert(unbounded.spec_get(UnboundedPosition { row: row, col: q.col as int as isize }) == unbounded.spec_get(q));
                        assert(grid@[row_base + (q.col - min_col)] == unbounded.spec_get(q));
                    }
                }
            }
            row = row + 1;
        }
        let maze = Maze::from_cells(grid, height, width);
        let start_pos = Position::new((0 - min_row) as usize, (0 - min_col) as usize);
        let target_pos = Position::new(
            (target.row - min_row) as usize,
            (target.col - min_col) as usize,
        );
        let result = (maze, start_pos, target_pos);
        proof {
            assert(spec_bounds_exact(*unbounded, min_row as int, max_row as int, min_col as int, max_col as int));
            assert forall|q: UnboundedPosition|
                min_row <= q.row <= max_row && min_col <= q.col <= max_col implies maze.spec_cell(
                Position {
                    row: (q.row - min_row) as usize,
                    col: (q.col - min_col) as usize,
                },
            ) == unbounded.spec_get(q) by {
                let p = Position { row: (q.row - min_row) as usize, col: (q.col - min_col) as usize };
                assert(maze.spec_index_of(p) == (q.row - min_row) * width + (q.col - min_col));
                assert(q == (UnboundedPosition { row: q.row, col: q.col }));
            }
            assert(spec_convert_result(
                *unbounded,
                target,
                Ok(result),
                min_row as int,
                max_row as int,
                min_col as int,
                max_col as int,
            ));
        }
        Ok(result)
    }

    /// Plans the optimal route over the converted bounded maze. Fails
    /// exactly when the target is unreachable from the start.
    pub fn plan_route(&self, maze: &Maze, start: Position, target: Position) -> (r: Result<
        Vec<MoveDirection>,
        SolverError,
    >)
        requires
            maze.spec_in_bounds(start),
            maze.spec_in_bounds(target),
        ensures
            (r == Err::<Vec<MoveDirection>, SolverError>(SolverError::Unreachable)) == !reachable(
                *maze,
                start,
                target,
            ),
            r is Err ==> r == Err::<Vec<MoveDirection>, SolverError>(SolverError::Unreachable),
            r matches Ok(path) ==> path_ok(*maze, start, target, path@),
    {
        match self.pathfinding.find_path(maze, start, target) {
            Some(path) => Ok(path),
            None => Err(SolverError::Unreachable),
        }
    }
}

/// An unfit bounding box makes the shape error the specified outcome.
proof fn lemma_convert_err_witness(
    unbounded: UnboundedMaze,
    target: UnboundedPosition,
    min_row: int,
    max_row: int,
    min_col: int,
    max_col: int,
)
    requires
        spec_bounds_exact(unbounded, min_row, max_row, min_col, max_col),
        !(max_row - min_row + 1 <= 255 && max_col - min_col + 1 <= 255 && min_row <= 0 <= max_row
            && min_col <= 0 <= max_col && min_row <= target.row <= max_row && min_col <= target.col
            <= max_col),
    ensures
        spec_convert_result(
            unbounded,
            target,
            Err::<(Maze, Position, Position), SolverError>(SolverError::Shape),
            min_row,
            max_row,
            min_col,
            max_col,
        ),
{
}

/// `b` is exactly the observed bounding box of the maze.
pub open spec fn spec_bounds_exact(
    m: UnboundedMaze,
    min_row: int,
    max_row: int,
    min_col: int,
    max_col: int,
) -> bool {
    &&& forall|q: UnboundedPosition|
        #[trigger] m.spec_contains(q) ==> min_row <= q.row <= max_row && min_col <= q.col
            <= max_col
    &&& exists|q: UnboundedPosition| #[trigger] m.spec_contains(q) && q.row == min_row
    &&& exists|q: UnboundedPosition| #[trigger] m.spec_contains(q) && q.row == max_row
    &&& exists|q: UnboundedPosition| #[trigger] m.spec_contains(q) && q.col == min_col
    &&& exists|q: UnboundedPosition| #[trigger] m.spec_contains(q) && q.col == max_col
}

/// What the conversion returns, relative to the observed bounding box:
/// it fails exactly where the box does not fit the bounded encoding or
/// where origin or target fall outside it; otherwise every observed
/// cell keeps its identity at its translated coordinate, and origin and
/// target are translated into the new frame.
pub open spec fn spec_convert_result(
    unbounded: UnboundedMaze,
    target: UnboundedPosition,
    r: Result<(Maze, Position, Position), SolverError>,
    min_row: int,
    max_row: int,
    min_col: int,
    max_col: int,
) -> bool {
    let height = max_row - min_row + 1;
    let width = max_col - min_col + 1;
    let fits = height <= 255 && width <= 255 && min_row <= 0 <= max_row && min_col <= 0 <= max_col
        && min_row <= target.row <= max_row && min_col <= target.col <= max_col;
    &&& (r is Err) == !fits
    &&& (r is Err ==> r == Err::<(Maze, Position, Position), SolverError>(SolverError::Shape))
    &&& (r matches Ok((m2, s2, t2)) ==> {
        &&& m2.spec_height() == height
        &&& m2.spec_width() == width
        &&& forall|q: UnboundedPosition|
            min_row <= q.row <= max_row && min_col <= q.col <= max_col ==> m2.spec_cell(
                Position {
                    row: (q.row - min_row) as usize,
                    col: (q.col - min_col) as usize,
                },
            ) == #[trigger] unbounded.spec_get(q)
        &&& s2 == (Position { row: (0 - min_row) as usize, col: (0 - min_col) as usize })
        &&& t2 == (Position {
            row: (target.row - min_row) as usize,
            col: (target.col - min_col) as usize,
        })
        &&& m2.spec_in_bounds(s2)
        &&& m2.spec_in_bounds(t2)
    })
}

} // verus!
