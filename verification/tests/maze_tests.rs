use maze_solver::error::SolverError;
use maze_solver::maze::{Cell, Maze, Position};
use maze_solver::types::MoveDirection;

fn strings(codes: &[&str]) -> Vec<String> {
    codes.iter().map(|s| s.to_string()).collect()
}

#[test]
fn cell_from_str_parses_known_codes() {
    assert_eq!(Cell::from_str("f"), Cell::Free);
    assert_eq!(Cell::from_str("b"), Cell::Blocked);
    assert_eq!(Cell::from_str("t"), Cell::Target);
    assert_eq!(Cell::from_str("r"), Cell::Robot);
    assert_eq!(Cell::from_str("u"), Cell::Unknown);
    assert_eq!(Cell::from_str("x"), Cell::Unknown);
    assert_eq!(Cell::from_str(""), Cell::Unknown);
    assert_eq!(Cell::from_str("ff"), Cell::Unknown);
}

#[test]
fn cell_walkability() {
    assert!(Cell::Free.is_walkable());
    assert!(Cell::Target.is_walkable());
    assert!(Cell::Robot.is_walkable());
    assert!(!Cell::Blocked.is_walkable());
    assert!(!Cell::Unknown.is_walkable());
}

#[test]
fn position_index_round_trip() {
    // index round-trip across a range of positions and widths
    for w in 1usize..8 {
        for row in 0usize..8 {
            for col in 0..w {
                let p = Position::new(row, col);
                let idx = p.to_index(w);
                assert_eq!(idx, row * w + col);
                assert_eq!(Position::from_index(idx, w), p);
            }
        }
    }
}

#[test]
fn manhattan_distance_is_symmetric_taxicab() {
    let a = Position::new(0, 0);
    let b = Position::new(2, 3);
    assert_eq!(a.manhattan_distance(b), 5);
    assert_eq!(b.manhattan_distance(a), 5);
    assert_eq!(a.manhattan_distance(a), 0);
}

#[test]
fn move_in_direction_respects_bounds() {
    let bounds = (3usize, 3usize);
    let corner = Position::new(0, 0);
    assert_eq!(corner.move_in_direction(MoveDirection::Up, bounds), None);
    assert_eq!(corner.move_in_direction(MoveDirection::Left, bounds), None);
    assert_eq!(
        corner.move_in_direction(MoveDirection::Down, bounds),
        Some(Position::new(1, 0))
    );
    assert_eq!(
        corner.move_in_direction(MoveDirection::Right, bounds),
        Some(Position::new(0, 1))
    );
    let far = Position::new(2, 2);
    assert_eq!(far.move_in_direction(MoveDirection::Down, bounds), None);
    assert_eq!(far.move_in_direction(MoveDirection::Right, bounds), None);
}

#[test]
fn from_flattened_rejects_short_grid() {
    // a [2,3] shape with only five flattened cells is a shape error
    let r = Maze::from_flattened(strings(&["f", "f", "f", "f", "f"]), vec![2, 3]);
    assert_eq!(r.unwrap_err(), SolverError::Shape);
}

#[test]
fn from_flattened_rejects_bad_shape_length() {
    let r = Maze::from_flattened(strings(&["f"]), vec![1]);
    assert_eq!(r.unwrap_err(), SolverError::Shape);
    let r = Maze::from_flattened(strings(&["f"]), vec![1, 1, 1]);
    assert_eq!(r.unwrap_err(), SolverError::Shape);
}

#[test]
fn from_flattened_accepts_exact_grid() {
    // with exactly six cells construction succeeds, and the cell at
    // (1,2) is the sixth element
    let m = Maze::from_flattened(strings(&["f", "f", "f", "f", "f", "t"]), vec![2, 3]).unwrap();
    assert_eq!(m.height(), 2);
    assert_eq!(m.width(), 3);
    assert_eq!(m.bounds(), (2, 3));
    assert_eq!(m.get(Position::new(1, 2)), Some(Cell::Target));
    assert_eq!(m.get(Position::new(0, 0)), Some(Cell::Free));
    assert_eq!(m.get(Position::new(2, 0)), None);
    assert_eq!(m.get(Position::new(0, 3)), None);
}

#[test]
fn find_robot_and_target_scan_row_major() {
    let m = Maze::from_flattened(
        strings(&["f", "r", "f", "f", "t", "f", "f", "f", "t"]),
        vec![3, 3],
    )
    .unwrap();
    assert_eq!(m.find_robot(), Some(Position::new(0, 1)));
    // the first target in row-major order wins
    assert_eq!(m.find_target(), Some(Position::new(1, 1)));

    let empty = Maze::from_flattened(strings(&["f", "f"]), vec![1, 2]).unwrap();
    assert_eq!(empty.find_robot(), None);
    assert_eq!(empty.find_target(), None);
}

#[test]
fn neighbors_filter_blocked_and_out_of_bounds() {
    let m = Maze::from_flattened(
        strings(&["f", "b", "f", "f", "f", "f", "f", "f", "f"]),
        vec![3, 3],
    )
    .unwrap();
    // centre cell: up is blocked, the other three are free
    let n = m.neighbors(Position::new(1, 1));
    assert_eq!(
        n,
        vec![
            (Position::new(2, 1), MoveDirection::Down),
            (Position::new(1, 0), MoveDirection::Left),
            (Position::new(1, 2), MoveDirection::Right),
        ]
    );
    // corner cell: only two in-bounds neighbours, one blocked
    let c = m.neighbors(Position::new(0, 0));
    assert_eq!(c, vec![(Position::new(1, 0), MoveDirection::Down)]);
}

#[test]
fn is_walkable_combines_bounds_and_terrain() {
    let m = Maze::from_flattened(strings(&["f", "b", "t", "r"]), vec![2, 2]).unwrap();
    assert!(m.is_walkable(Position::new(0, 0)));
    assert!(!m.is_walkable(Position::new(0, 1)));
    assert!(m.is_walkable(Position::new(1, 0)));
    assert!(m.is_walkable(Position::new(1, 1)));
    assert!(!m.is_walkable(Position::new(2, 2)));
}
