use maze_solver::algorithms::exploration::WallFollower;
use maze_solver::algorithms::pathfinding::AStar;
use maze_solver::error::SolverError;
use maze_solver::maze::{Cell, Maze, Position, UnboundedMaze, UnboundedPosition};
use maze_solver::solvers::blind::{BlindSolver, ExplorationState, STEP_CEILING};
use maze_solver::solvers::OmniscientSolver;
use maze_solver::types::{MoveDirection, SensorState, SensorsStates};

fn strings(codes: &[&str]) -> Vec<String> {
    codes.iter().map(|s| s.to_string()).collect()
}

fn all_free() -> SensorsStates {
    SensorsStates {
        up: SensorState::Free,
        down: SensorState::Free,
        left: SensorState::Free,
        right: SensorState::Free,
        up_left: SensorState::Free,
        up_right: SensorState::Free,
        down_left: SensorState::Free,
        down_right: SensorState::Free,
    }
}

struct TrueMaze {
    rows: Vec<Vec<char>>,
}

impl TrueMaze {
    fn new(rows: &[&str]) -> Self {
        Self {
            rows: rows.iter().map(|r| r.chars().collect()).collect(),
        }
    }

    fn at(&self, row: isize, col: isize) -> char {
        if row < 0 || col < 0 {
            return 'b';
        }
        let (r, c) = (row as usize, col as usize);
        if r >= self.rows.len() || c >= self.rows[r].len() {
            'b'
        } else {
            self.rows[r][c]
        }
    }

    fn state(&self, row: isize, col: isize) -> SensorState {
        match self.at(row, col) {
            'b' => SensorState::Blocked,
            't' => SensorState::Target,
            _ => SensorState::Free,
        }
    }

    fn sensors(&self, pos: UnboundedPosition) -> SensorsStates {
        SensorsStates {
            up: self.state(pos.row - 1, pos.col),
            down: self.state(pos.row + 1, pos.col),
            left: self.state(pos.row, pos.col - 1),
            right: self.state(pos.row, pos.col + 1),
            up_left: self.state(pos.row - 1, pos.col - 1),
            up_right: self.state(pos.row - 1, pos.col + 1),
            down_left: self.state(pos.row + 1, pos.col - 1),
            down_right: self.state(pos.row + 1, pos.col + 1),
        }
    }
}

#[test]
fn omniscient_plan_solves_the_canonical_grid() {
    let m = Maze::from_flattened(
        strings(&["r", "f", "b", "f", "f", "f", "b", "f", "t"]),
        vec![3, 3],
    )
    .unwrap();
    let solver = OmniscientSolver::new(AStar, 0);
    let (start, target, path) = solver.plan(&m).unwrap();
    assert_eq!(start, Position::new(0, 0));
    assert_eq!(target, Position::new(2, 2));
    assert_eq!(path.len(), 4);
    assert_eq!(solver.delay_ms(), 0);
}

#[test]
fn omniscient_plan_reports_missing_robot_or_target() {
    let no_robot = Maze::from_flattened(strings(&["f", "t"]), vec![1, 2]).unwrap();
    let solver = OmniscientSolver::new(AStar, 0);
    assert_eq!(solver.plan(&no_robot).unwrap_err(), SolverError::NotFound);

    let no_target = Maze::from_flattened(strings(&["r", "f"]), vec![1, 2]).unwrap();
    assert_eq!(solver.plan(&no_target).unwrap_err(), SolverError::NotFound);
}

#[test]
fn omniscient_plan_reports_unreachable_target() {
    let m = Maze::from_flattened(strings(&["r", "b", "t"]), vec![1, 3]).unwrap();
    let solver = OmniscientSolver::new(AStar, 0);
    assert_eq!(solver.plan(&m).unwrap_err(), SolverError::Unreachable);
}

#[test]
fn detect_target_reports_first_sighting_in_scan_order() {
    let pos = UnboundedPosition::new(2, 3);
    let mut sensors = all_free();
    assert_eq!(ExplorationState::detect_target_in_sensors(pos, &sensors), None);
    sensors.down_right = SensorState::Target;
    assert_eq!(
        ExplorationState::detect_target_in_sensors(pos, &sensors),
        Some(UnboundedPosition::new(3, 4))
    );
    // a cardinal sighting outranks a diagonal one in the scan order
    sensors.down = SensorState::Target;
    assert_eq!(
        ExplorationState::detect_target_in_sensors(pos, &sensors),
        Some(UnboundedPosition::new(3, 3))
    );
    sensors.up = SensorState::Target;
    assert_eq!(
        ExplorationState::detect_target_in_sensors(pos, &sensors),
        Some(UnboundedPosition::new(1, 3))
    );
}

#[test]
fn commit_move_reports_failed_moves_with_step_index() {
    let st = ExplorationState::begin(&all_free());
    let mut st = st;
    let r = st.commit_move(MoveDirection::Right, false);
    assert_eq!(
        r.unwrap_err(),
        SolverError::MoveFailure {
            step: 1,
            direction: MoveDirection::Right
        }
    );
    assert_eq!(st.steps(), 0);
}

#[test]
fn commit_move_updates_position_and_grid() {
    let mut st = ExplorationState::begin(&all_free());
    st.commit_move(MoveDirection::Right, true).unwrap();
    assert_eq!(st.current_pos(), UnboundedPosition::new(0, 1));
    assert_eq!(st.steps(), 1);
    assert_eq!(st.maze().get(UnboundedPosition::new(0, 0)), Cell::Free);
    assert_eq!(st.maze().get(UnboundedPosition::new(0, 1)), Cell::Robot);
}

#[test]
fn step_ceiling_trips_the_loop_guard() {
    let mut st = ExplorationState::begin(&all_free());
    let mut guard = None;
    for i in 0..=STEP_CEILING + 1 {
        let d = if i % 2 == 0 {
            MoveDirection::Right
        } else {
            MoveDirection::Left
        };
        if let Err(e) = st.commit_move(d, true) {
            guard = Some((i, e));
            break;
        }
    }
    let (i, e) = guard.expect("loop guard never tripped");
    assert_eq!(e, SolverError::LoopGuard);
    assert_eq!(i, STEP_CEILING);
}

#[test]
fn explore_step_reports_closed_channel_without_fresh_sensors() {
    let mut st = ExplorationState::begin(&all_free());
    let mut solver = BlindSolver::new(WallFollower::new(), AStar, 0);
    // the origin is cached, so the first step needs no fresh reading
    assert!(st.has_cached_sensors());
    let first = solver.explore_step(&mut st, None);
    assert!(first.is_ok());
    // after moving to an unvisited cell, a missing fresh reading is a
    // closed channel
    let d = first.unwrap().expect("expected a move");
    st.commit_move(d, true).unwrap();
    assert!(!st.has_cached_sensors());
    let r = solver.explore_step(&mut st, None);
    assert_eq!(r.unwrap_err(), SolverError::ChannelClosed);
}

#[test]
fn convert_to_bounded_rejects_an_empty_maze() {
    let solver = BlindSolver::new(WallFollower::new(), AStar, 0);
    let maze = UnboundedMaze::new();
    let r = solver.convert_to_bounded(&maze, UnboundedPosition::new(0, 0));
    assert_eq!(r.unwrap_err(), SolverError::Shape);
}

#[test]
fn convert_to_bounded_translates_cells_and_frames() {
    // cells observed around the origin, with negative coordinates
    let mut maze = UnboundedMaze::new();
    maze.set(UnboundedPosition::new(-1, -1), Cell::Free);
    maze.set(UnboundedPosition::new(-1, 0), Cell::Blocked);
    maze.set(UnboundedPosition::new(0, 0), Cell::Robot);
    maze.set(UnboundedPosition::new(0, 1), Cell::Target);
    let solver = BlindSolver::new(WallFollower::new(), AStar, 0);
    let (bounded, start, target) = solver
        .convert_to_bounded(&maze, UnboundedPosition::new(0, 1))
        .unwrap();
    assert_eq!(bounded.bounds(), (2, 3));
    // cell identity is preserved under translation
    assert_eq!(bounded.get(Position::new(0, 0)), Some(Cell::Free));
    assert_eq!(bounded.get(Position::new(0, 1)), Some(Cell::Blocked));
    assert_eq!(bounded.get(Position::new(1, 1)), Some(Cell::Robot));
    assert_eq!(bounded.get(Position::new(1, 2)), Some(Cell::Target));
    // a never-observed cell inside the box reads unknown
    assert_eq!(bounded.get(Position::new(0, 2)), Some(Cell::Unknown));
    // the origin and the sighted target are translated into the frame
    assert_eq!(start, Position::new(1, 1));
    assert_eq!(target, Position::new(1, 2));
}

#[test]
fn blind_pipeline_explores_converts_and_plans() {
    // a full blind run against a ground-truth maze, minus the remote
    // transport: explore with the wall follower, convert, plan with A*
    let world = TrueMaze::new(&["fffb", "fbfb", "ffft"]);
    let origin = UnboundedPosition::new(0, 0);
    let mut solver = BlindSolver::new(WallFollower::new(), AStar, 0);
    solver.reset_exploration();
    let mut st = ExplorationState::begin(&world.sensors(origin));
    let mut exploration_steps = 0usize;
    loop {
        let fresh = world.sensors(st.current_pos());
        let mv = solver
            .explore_step(&mut st, Some(&fresh))
            .expect("exploration failed");
        match mv {
            Some(d) => {
                st.commit_move(d, true).unwrap();
                exploration_steps += 1;
                assert!(exploration_steps <= 64, "exploration ran away");
            }
            None => break,
        }
    }
    let target = st.target_pos().expect("target never sighted");
    assert_eq!(target, UnboundedPosition::new(2, 3));
    let (bounded, start, bounded_target) =
        solver.convert_to_bounded(st.maze(), target).unwrap();
    // the observed box spans one sensed cell beyond the ring on every
    // side
    assert_eq!(bounded.bounds(), (5, 5));
    assert_eq!(start, Position::new(1, 1));
    assert_eq!(bounded_target, Position::new(3, 4));
    let path = solver.plan_route(&bounded, start, bounded_target).unwrap();
    // the optimal route around the blocked centre to the target is five
    // steps
    assert_eq!(path.len(), 5);
}

#[test]
fn plan_route_reports_unreachable() {
    let m = Maze::from_flattened(strings(&["f", "b", "f"]), vec![1, 3]).unwrap();
    let solver = BlindSolver::new(WallFollower::new(), AStar, 0);
    let r = solver.plan_route(&m, Position::new(0, 0), Position::new(0, 2));
    assert_eq!(r.unwrap_err(), SolverError::Unreachable);
}
