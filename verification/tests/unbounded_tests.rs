use maze_solver::cli;
use maze_solver::maze::{Cell, UnboundedMaze, UnboundedPosition};
use maze_solver::types::{MoveDirection, SensorState, SensorsStates};

#[test]
fn get_returns_unknown_for_unwritten_cells() {
    let maze = UnboundedMaze::new();
    assert_eq!(maze.get(UnboundedPosition::new(0, 0)), Cell::Unknown);
    assert_eq!(maze.get(UnboundedPosition::new(-5, 7)), Cell::Unknown);
}

#[test]
fn set_overwrites_prior_values() {
    let mut maze = UnboundedMaze::new();
    let p = UnboundedPosition::new(2, -3);
    maze.set(p, Cell::Robot);
    assert_eq!(maze.get(p), Cell::Robot);
    maze.set(p, Cell::Free);
    assert_eq!(maze.get(p), Cell::Free);
    // other cells are untouched
    assert_eq!(maze.get(UnboundedPosition::new(2, -2)), Cell::Unknown);
}

#[test]
fn walkability_of_unbounded_cells() {
    let mut maze = UnboundedMaze::new();
    let p = UnboundedPosition::new(0, 0);
    assert!(!maze.is_walkable(p));
    maze.set(p, Cell::Free);
    assert!(maze.is_walkable(p));
    maze.set(p, Cell::Blocked);
    assert!(!maze.is_walkable(p));
    maze.set(p, Cell::Target);
    assert!(maze.is_walkable(p));
}

#[test]
fn unbounded_position_moves_without_bounds() {
    let p = UnboundedPosition::new(0, 0);
    assert_eq!(
        p.move_in_direction(MoveDirection::Up),
        UnboundedPosition::new(-1, 0)
    );
    assert_eq!(
        p.move_in_direction(MoveDirection::Down),
        UnboundedPosition::new(1, 0)
    );
    assert_eq!(
        p.move_in_direction(MoveDirection::Left),
        UnboundedPosition::new(0, -1)
    );
    assert_eq!(
        p.move_in_direction(MoveDirection::Right),
        UnboundedPosition::new(0, 1)
    );
}

#[test]
fn unbounded_neighbors_filter_walkable_cells() {
    let mut maze = UnboundedMaze::new();
    let p = UnboundedPosition::new(0, 0);
    maze.set(UnboundedPosition::new(-1, 0), Cell::Free);
    maze.set(UnboundedPosition::new(1, 0), Cell::Blocked);
    maze.set(UnboundedPosition::new(0, 1), Cell::Target);
    // left neighbour never observed: unknown, not walkable
    let n = maze.neighbors(p);
    assert_eq!(
        n,
        vec![
            (UnboundedPosition::new(-1, 0), MoveDirection::Up),
            (UnboundedPosition::new(0, 1), MoveDirection::Right),
        ]
    );
}

#[test]
fn get_bounds_tracks_the_observed_box() {
    let mut maze = UnboundedMaze::new();
    assert_eq!(maze.get_bounds(), None);
    maze.set(UnboundedPosition::new(0, 0), Cell::Free);
    assert_eq!(maze.get_bounds(), Some((0, 0, 0, 0)));
    maze.set(UnboundedPosition::new(-2, 5), Cell::Blocked);
    maze.set(UnboundedPosition::new(3, -1), Cell::Free);
    assert_eq!(maze.get_bounds(), Some((-2, 3, -1, 5)));
}

#[test]
fn update_from_sensors_writes_the_footprint() {
    let mut maze = UnboundedMaze::new();
    let pos = UnboundedPosition::new(0, 0);
    let sensors = SensorsStates {
        up: SensorState::Blocked,
        down: SensorState::Free,
        left: SensorState::Free,
        right: SensorState::Target,
        up_left: SensorState::Blocked,
        up_right: SensorState::Free,
        down_left: SensorState::Free,
        down_right: SensorState::Blocked,
    };
    maze.update_from_sensors(pos, &sensors);
    assert_eq!(maze.get(pos), Cell::Robot);
    assert_eq!(maze.get(UnboundedPosition::new(-1, 0)), Cell::Blocked);
    assert_eq!(maze.get(UnboundedPosition::new(1, 0)), Cell::Free);
    assert_eq!(maze.get(UnboundedPosition::new(0, -1)), Cell::Free);
    assert_eq!(maze.get(UnboundedPosition::new(0, 1)), Cell::Target);
    assert_eq!(maze.get(UnboundedPosition::new(-1, -1)), Cell::Blocked);
    assert_eq!(maze.get(UnboundedPosition::new(-1, 1)), Cell::Free);
    assert_eq!(maze.get(UnboundedPosition::new(1, -1)), Cell::Free);
    assert_eq!(maze.get(UnboundedPosition::new(1, 1)), Cell::Blocked);
    // sensor data overwrites prior values on a second reading
    let fresh = SensorsStates {
        up: SensorState::Free,
        ..sensors
    };
    maze.update_from_sensors(pos, &fresh);
    assert_eq!(maze.get(UnboundedPosition::new(-1, 0)), Cell::Free);
}

#[test]
fn move_direction_wire_names() {
    assert_eq!(MoveDirection::Up.as_str(), "up");
    assert_eq!(MoveDirection::Down.as_str(), "down");
    assert_eq!(MoveDirection::Left.as_str(), "left");
    assert_eq!(MoveDirection::Right.as_str(), "right");
}

#[test]
fn cli_enumerations_cover_all_algorithms() {
    let p = cli::PathfindingAlgorithm::all();
    assert_eq!(
        p,
        vec![
            cli::PathfindingAlgorithm::AStar,
            cli::PathfindingAlgorithm::Dijkstra,
            cli::PathfindingAlgorithm::DFS,
        ]
    );
    assert_eq!(cli::PathfindingAlgorithm::AStar.name(), "A*");
    assert_eq!(cli::PathfindingAlgorithm::Dijkstra.name(), "Dijkstra");
    assert_eq!(cli::PathfindingAlgorithm::DFS.name(), "DFS");
    let e = cli::ExplorationAlgorithm::all();
    assert_eq!(
        e,
        vec![
            cli::ExplorationAlgorithm::WallFollower,
            cli::ExplorationAlgorithm::RecursiveBacktracker,
        ]
    );
    assert_eq!(cli::ExplorationAlgorithm::WallFollower.name(), "Wall Follower");
    assert_eq!(
        cli::ExplorationAlgorithm::RecursiveBacktracker.name(),
        "Recursive Backtracker"
    );
}
