use maze_solver::algorithms::exploration::{
    ExplorationAlgorithm, RecursiveBacktracker, WallFollower,
};
use maze_solver::error::SolverError;
use maze_solver::maze::{Cell, UnboundedMaze, UnboundedPosition};
use maze_solver::types::{MoveDirection, SensorState, SensorsStates};

/// A ground-truth maze for driving exploration: rows of `f`/`b`/`t`
/// characters; everything outside the rows is a wall.
struct TrueMaze {
    rows: Vec<Vec<char>>,
}

impl TrueMaze {
    fn new(rows: &[&str]) -> Self {
        Self {
            rows: rows.iter().map(|r| r.chars().collect()).collect(),
        }
    }

    fn at(&self, row: isize, col: isize) -> char {
        if row < 0 || col < 0 {
            return 'b';
        }
        let (r, c) = (row as usize, col as usize);
        if r >= self.rows.len() || c >= self.rows[r].len() {
            'b'
        } else {
            self.rows[r][c]
        }
    }

    fn state(&self, row: isize, col: isize) -> SensorState {
        match self.at(row, col) {
            'b' => SensorState::Blocked,
            't' => SensorState::Target,
            _ => SensorState::Free,
        }
    }

    fn sensors(&self, pos: UnboundedPosition) -> SensorsStates {
        SensorsStates {
            up: self.state(pos.row - 1, pos.col),
            down: self.state(pos.row + 1, pos.col),
            left: self.state(pos.row, pos.col - 1),
            right: self.state(pos.row, pos.col + 1),
            up_left: self.state(pos.row - 1, pos.col - 1),
            up_right: self.state(pos.row - 1, pos.col + 1),
            down_left: self.state(pos.row + 1, pos.col - 1),
            down_right: self.state(pos.row + 1, pos.col + 1),
        }
    }
}

fn step(pos: UnboundedPosition, d: MoveDirection) -> UnboundedPosition {
    match d {
        MoveDirection::Up => UnboundedPosition::new(pos.row - 1, pos.col),
        MoveDirection::Down => UnboundedPosition::new(pos.row + 1, pos.col),
        MoveDirection::Left => UnboundedPosition::new(pos.row, pos.col - 1),
        MoveDirection::Right => UnboundedPosition::new(pos.row, pos.col + 1),
    }
}

/// Drives one exploration strategy over a ground-truth maze, mirroring
/// the solver's exploration loop, and returns the emitted moves.
fn drive<E: ExplorationAlgorithm>(
    algo: &mut E,
    world: &TrueMaze,
    start: UnboundedPosition,
    limit: usize,
) -> Vec<MoveDirection> {
    let mut maze = UnboundedMaze::new();
    let mut pos = start;
    maze.set(pos, Cell::Robot);
    let mut moves = Vec::new();
    for _ in 0..limit {
        let sensors = world.sensors(pos);
        maze.update_from_sensors(pos, &sensors);
        match algo.next_move(pos, &sensors, &maze).expect("exploration failed") {
            Some(d) => {
                moves.push(d);
                maze.set(pos, Cell::Free);
                pos = step(pos, d);
                maze.set(pos, Cell::Robot);
            }
            None => return moves,
        }
    }
    panic!("exploration did not finish within {} moves", limit);
}

#[test]
fn wall_follower_walks_a_ring_once_and_completes() {
    // a single-loop maze: a ring of free cells around one blocked
    // interior cell
    let world = TrueMaze::new(&["fff", "fbf", "fff"]);
    let start = UnboundedPosition::new(0, 0);

    let mut wf = WallFollower::new();
    let mut maze = UnboundedMaze::new();
    let mut pos = start;
    maze.set(pos, Cell::Robot);
    let mut visits: std::collections::HashMap<(isize, isize), usize> =
        std::collections::HashMap::new();
    visits.insert((0, 0), 1);
    let mut moves = Vec::new();
    let mut completed = false;
    for _ in 0..32 {
        let sensors = world.sensors(pos);
        maze.update_from_sensors(pos, &sensors);
        match wf.next_move(pos, &sensors, &maze).expect("surrounded") {
            Some(d) => {
                moves.push(d);
                maze.set(pos, Cell::Free);
                pos = step(pos, d);
                maze.set(pos, Cell::Robot);
                *visits.entry((pos.row, pos.col)).or_insert(0) += 1;
                if moves.len() == 8 {
                    // back at the start after a full loop: every free
                    // cell visited exactly once, the start now re-entered
                    assert_eq!(pos, start);
                    assert_eq!(visits.len(), 8);
                    for (&cell, &count) in &visits {
                        if cell == (start.row, start.col) {
                            assert_eq!(count, 2);
                        } else {
                            assert_eq!(count, 1);
                        }
                    }
                }
            }
            None => {
                completed = true;
                break;
            }
        }
    }
    assert!(completed, "wall follower never reported completion");
    // completion is reported at the call where the robot stands on its
    // start again: exactly one full loop, no extra move
    assert_eq!(moves.len(), 8);
    // the loop is traversed clockwise from the corner under the
    // left-hand rule
    assert_eq!(
        &moves[0..8],
        &[
            MoveDirection::Right,
            MoveDirection::Right,
            MoveDirection::Down,
            MoveDirection::Down,
            MoveDirection::Left,
            MoveDirection::Left,
            MoveDirection::Up,
            MoveDirection::Up,
        ]
    );
}

#[test]
fn wall_follower_fails_when_surrounded() {
    let world = TrueMaze::new(&["f"]);
    let start = UnboundedPosition::new(0, 0);
    let mut wf = WallFollower::new();
    let maze = UnboundedMaze::new();
    let sensors = world.sensors(start);
    let r = wf.next_move(start, &sensors, &maze);
    assert_eq!(r.unwrap_err(), SolverError::Surrounded);
}

#[test]
fn wall_follower_reset_restarts_exploration() {
    let world = TrueMaze::new(&["fff", "fbf", "fff"]);
    let mut wf = WallFollower::new();
    let first = drive(&mut wf, &world, UnboundedPosition::new(0, 0), 32);
    wf.reset();
    let second = drive(&mut wf, &world, UnboundedPosition::new(0, 0), 32);
    assert_eq!(first, second);
}

#[test]
fn recursive_backtracker_enters_dead_end_and_reverses() {
    // a corridor with one dead-end branch below its second cell: the
    // backtracker must walk in, find no unvisited neighbour, and emit
    // the exact reversal of its entering move
    let world = TrueMaze::new(&["ffff", "bfbb"]);
    let mut rb = RecursiveBacktracker::new();
    let moves = drive(&mut rb, &world, UnboundedPosition::new(0, 0), 64);
    // move into the corridor, branch down into the dead end, reverse
    assert_eq!(moves[0], MoveDirection::Right);
    assert_eq!(moves[1], MoveDirection::Down);
    assert_eq!(moves[2], MoveDirection::Up);
    // afterwards the rest of the corridor is explored
    assert!(moves[3..].starts_with(&[MoveDirection::Right]));
}

#[test]
fn recursive_backtracker_completes_on_fully_explored_maze() {
    let world = TrueMaze::new(&["ff", "ff"]);
    let mut rb = RecursiveBacktracker::new();
    let moves = drive(&mut rb, &world, UnboundedPosition::new(0, 0), 64);
    // four cells, all explored, with backtracking to the origin allowed
    assert!(moves.len() >= 3);
}

#[test]
fn exploration_algorithm_names() {
    assert_eq!(WallFollower::new().name(), "Wall Follower (Left-Hand Rule)");
    assert_eq!(RecursiveBacktracker::new().name(), "Recursive Backtracker");
}

#[test]
fn recursive_backtracker_reset_clears_state() {
    let world = TrueMaze::new(&["fff"]);
    let mut rb = RecursiveBacktracker::new();
    let first = drive(&mut rb, &world, UnboundedPosition::new(0, 0), 64);
    rb.reset();
    let second = drive(&mut rb, &world, UnboundedPosition::new(0, 0), 64);
    assert_eq!(first, second);
}
