use maze_solver::algorithms::pathfinding::{AStar, Dijkstra, PathfindingAlgorithm, DFS};
use maze_solver::algorithms::pathfinding::traits::PathResult;
use maze_solver::maze::{Maze, Position};
use maze_solver::types::MoveDirection;

fn strings(codes: &[&str]) -> Vec<String> {
    codes.iter().map(|s| s.to_string()).collect()
}

fn maze(codes: &[&str], h: u8, w: u8) -> Maze {
    Maze::from_flattened(strings(codes), vec![h, w]).unwrap()
}

/// Walks a path on the maze, checking every move is legal, and returns
/// the final position.
fn walk(m: &Maze, start: Position, path: &[MoveDirection]) -> Position {
    let mut pos = start;
    for &d in path {
        let next = pos
            .move_in_direction(d, m.bounds())
            .expect("move left the grid");
        assert!(m.is_walkable(next), "move onto a non-walkable cell");
        pos = next;
    }
    pos
}

/// Independent breadth-first search distance, for cross-checking the
/// informed searches.
fn bfs_distance(m: &Maze, start: Position, target: Position) -> Option<usize> {
    let mut dist = vec![None; m.height() * m.width()];
    let mut queue = std::collections::VecDeque::new();
    dist[start.to_index(m.width())] = Some(0usize);
    queue.push_back(start);
    while let Some(p) = queue.pop_front() {
        let d = dist[p.to_index(m.width())].unwrap();
        if p == target {
            return Some(d);
        }
        for (q, _) in m.neighbors(p) {
            let idx = q.to_index(m.width());
            if dist[idx].is_none() {
                dist[idx] = Some(d + 1);
                queue.push_back(q);
            }
        }
    }
    None
}

#[test]
fn end_to_end_three_by_three() {
    // the canonical 3x3 grid: blocked at (0,2) and (2,0); A* from the
    // robot corner to the target corner takes exactly four steps
    let m = maze(&["r", "f", "b", "f", "f", "f", "b", "f", "t"], 3, 3);
    let start = m.find_robot().unwrap();
    let target = m.find_target().unwrap();
    assert_eq!(start, Position::new(0, 0));
    assert_eq!(target, Position::new(2, 2));
    let path = AStar.find_path(&m, start, target).unwrap();
    assert_eq!(path.len(), 4);
    assert_eq!(walk(&m, start, &path), target);
}

#[test]
fn astar_and_dijkstra_agree_with_bfs_on_all_pairs() {
    // every reachable pair must get paths of equal length from A* and
    // Dijkstra, and that length must equal the independent BFS distance
    let m = maze(
        &[
            "f", "f", "b", "f", //
            "f", "b", "f", "f", //
            "f", "f", "f", "b", //
            "b", "f", "f", "f", //
        ],
        4,
        4,
    );
    for si in 0..16usize {
        for ti in 0..16usize {
            let s = Position::from_index(si, 4);
            let t = Position::from_index(ti, 4);
            if !m.is_walkable(s) || !m.is_walkable(t) {
                continue;
            }
            let expected = bfs_distance(&m, s, t);
            let a = AStar.find_path(&m, s, t);
            let d = Dijkstra.find_path(&m, s, t);
            match expected {
                Some(dist) => {
                    let a = a.expect("A* missed a reachable target");
                    let d = d.expect("Dijkstra missed a reachable target");
                    assert_eq!(a.len(), dist);
                    assert_eq!(d.len(), dist);
                    assert_eq!(walk(&m, s, &a), t);
                    assert_eq!(walk(&m, s, &d), t);
                }
                None => {
                    assert!(a.is_none());
                    assert!(d.is_none());
                }
            }
        }
    }
}

#[test]
fn dfs_paths_are_legal_and_never_shorter_than_optimal() {
    let m = maze(
        &[
            "f", "f", "b", "f", //
            "f", "b", "f", "f", //
            "f", "f", "f", "b", //
            "b", "f", "f", "f", //
        ],
        4,
        4,
    );
    for si in 0..16usize {
        for ti in 0..16usize {
            let s = Position::from_index(si, 4);
            let t = Position::from_index(ti, 4);
            if !m.is_walkable(s) || !m.is_walkable(t) {
                continue;
            }
            let optimal = AStar.find_path(&m, s, t);
            let found = DFS.find_path(&m, s, t);
            match optimal {
                Some(best) => {
                    let p = found.expect("DFS missed a reachable target");
                    assert_eq!(walk(&m, s, &p), t);
                    assert!(p.len() >= best.len());
                }
                None => assert!(found.is_none()),
            }
        }
    }
}

#[test]
fn unreachable_target_yields_none_from_all_algorithms() {
    let m = maze(&["r", "b", "t"], 1, 3);
    let s = Position::new(0, 0);
    let t = Position::new(0, 2);
    assert!(AStar.find_path(&m, s, t).is_none());
    assert!(Dijkstra.find_path(&m, s, t).is_none());
    assert!(DFS.find_path(&m, s, t).is_none());
}

#[test]
fn trivial_path_from_cell_to_itself_is_empty() {
    let m = maze(&["f", "f", "f", "f"], 2, 2);
    let p = Position::new(1, 1);
    assert_eq!(AStar.find_path(&m, p, p).unwrap().len(), 0);
    assert_eq!(Dijkstra.find_path(&m, p, p).unwrap().len(), 0);
    assert_eq!(DFS.find_path(&m, p, p).unwrap().len(), 0);
}

#[test]
fn algorithm_names() {
    assert_eq!(AStar.name(), "A*");
    assert_eq!(Dijkstra.name(), "Dijkstra");
    assert_eq!(DFS.name(), "DFS");
}

#[test]
fn path_result_totals_planning_and_execution() {
    let r = PathResult::new(12, 30, 70);
    assert_eq!(r.steps, 12);
    assert_eq!(r.planning_ms, 30);
    assert_eq!(r.execution_ms, 70);
    assert_eq!(r.total_ms, 100);
}

#[test]
fn single_cell_grid_is_its_own_target() {
    let m = maze(&["r"], 1, 1);
    let p = Position::new(0, 0);
    let path = AStar.find_path(&m, p, p).unwrap();
    assert!(path.is_empty());
}
