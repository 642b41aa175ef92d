//! Depth-first search: an uninformed strategy that returns the first
//! route found. It is not cost-optimal — its presence benchmarks how
//! much an uninformed strategy costs against informed search — but it
//! still finds a route exactly when one exists.

use vstd::prelude::*;
use crate::maze::bounded::Maze;
use crate::maze::position::Position;
use crate::types::MoveDirection;
use crate::algorithms::pathfinding::route::{path_ok, reachable};
use crate::algorithms::pathfinding::search::{came_inv, reconstruct_path, UNPRICED};
use crate::algorithms::pathfinding::traits::PathfindingAlgorithm;

verus! {

/// Stack-based depth-first search over a bounded maze.
#[allow(clippy::upper_case_acronyms)]
pub struct DFS;

/// Every legal move out of the cell with index `i` lands on a visited
/// cell: the cell has been fully expanded.
spec fn expanded(m: Maze, visited: Seq<bool>, i: int) -> bool {
    forall|d: MoveDirection|
        #[trigger] m.spec_move_ok(m.spec_pos_of(i), d) ==> visited[m.spec_index_of(
            m.spec_pos_of(i).spec_step(d),
        )]
}

/// The number of `true` entries; part of the termination measure.
spec fn count_true(s: Seq<bool>) -> nat
    decreases s.len(),
{
    if s.len() == 0 {
        0
    } else {
        count_true(s.drop_last()) + (if s.last() {
            1nat
        } else {
            0
        })
    }
}

proof fn lemma_count_true_le_len(s: Seq<bool>)
    ensures
        count_true(s) <= s.len(),
    decreases s.len(),
{
    if s.len() > 0 {
        lemma_count_true_le_len(s.drop_last());
    }
}

proof fn lemma_count_true_set(s: Seq<bool>, i: int)
    requires
        0 <= i < s.len(),
        !s[i],
    ensures
        count_true(s.update(i, true)) == count_true(s) + 1,
    decreases s.len(),
{
    if i == s.len() - 1 {
        assert(s.update(i, true).drop_last() =~= s.drop_last());
    } else {
        assert(s.update(i, true).drop_last() =~= s.drop_last().update(i, true));
        lemma_count_true_set(s.drop_last(), i);
    }
}

/// A set of visited cells that is closed under legal moves contains the
/// endpoint of every route leaving it.
proof fn lemma_visited_closure(
    m: Maze,
    visited: Seq<bool>,
    cur: Position,
    t: Position,
    p: Seq<MoveDirection>,
)
    requires
        visited.len() == m.spec_size(),
        m.spec_in_bounds(cur),
        visited[m.spec_index_of(cur)],
        forall|i: int| 0 <= i < visited.len() && #[trigger] visited[i] ==> expanded(m, visited, i),
        path_ok(m, cur, t, p),
    ensures
        visited[m.spec_index_of(t)],
    decreases p.len(),
{
    if p.len() > 0 {
        let d = p[0];
        let next = cur.spec_step(d);
        m.lemma_index_in_range(cur);
        m.lemma_pos_of_inverse(cur);
        assert(expanded(m, visited, m.spec_index_of(cur)));
        assert(m.spec_move_ok(m.spec_pos_of(m.spec_index_of(cur)), d));
        lemma_visited_closure(m, visited, next, t, p.skip(1));
    }
}

impl PathfindingAlgorithm for DFS {
    fn find_path(&self, maze: &Maze, start: Position, target: Position) -> (r: Option<
        Vec<MoveDirection>,
    >) {
        let ghost m = *maze;
        proof {
            use_type_invariant(maze);
            maze.lemma_wf();
            maze.lemma_index_in_range(start);
            maze.lemma_index_in_range(target);
        }
        let (height, width) = maze.bounds();
        proof {
            assert(height * width == m.spec_size() && height * width <= 255 * 255)
                by (nonlinear_arith)
                requires
                    height == m.spec_height(),
                    width == m.spec_width(),
                    0 <= m.spec_height() <= 255,
                    0 <= m.spec_width() <= 255,
            ;
        }
        let n = height * width;
        let mut visited: Vec<bool> = Vec::new();
        let mut came: Vec<Option<(Position, MoveDirection)>> = Vec::new();
        let ghost mut depth: Seq<usize> = Seq::new(n as nat, |j: int| UNPRICED);
        let mut i: usize = 0;
        while i < n
            invariant
                i <= n,
                visited@.len() == i,
                came@.len() == i,
                forall|j: int| 0 <= j < i ==> !(#[trigger] visited@[j]),
                forall|j: int| 0 <= j < i ==> came@[j] is None,
            decreases n - i,
        {
            visited.push(false);
            came.push(None);
            i = i + 1;
        }
        let start_idx = start.to_index(width);
        visited[start_idx] = true;
        proof {
            depth = depth.update(start_idx as int, 0);
            m.lemma_pos_of_inverse(start);
            lemma_count_true_le_len(visited@);
        }
        let mut stack: Vec<Position> = Vec::new();
        stack.push(start);
        proof {
            assert forall|j: int| 0 <= j < n && #[trigger] visited@[j] implies exists|k: int|
                0 <= k < stack@.len() && m.spec_index_of(#[trigger] stack@[k]) == j by {
                assert(j == start_idx as int);
                assert(m.spec_index_of(stack@[0]) == j);
            }
            if visited@[m.spec_index_of(target)] {
                m.lemma_index_injective(target, start);
                assert(stack@[0] == target);
            }
        }
        while stack.len() > 0
            invariant
                m == *maze,
                m.wf(),
                m.spec_in_bounds(start),
                m.spec_in_bounds(target),
                width == m.spec_width(),
                n == m.spec_size(),
                n <= 255 * 255,
                start_idx == m.spec_index_of(start),
                start_idx < n,
                visited@.len() == n,
                depth.len() == n,
                visited@[start_idx as int],
                count_true(visited@) <= n,
                forall|j: int|
                    0 <= j < n ==> ((#[trigger] depth[j]) < UNPRICED <==> visited@[j]),
                forall|j: int|
                    0 <= j < n && (#[trigger] depth[j]) < UNPRICED ==> depth[j]
                        <= count_true(visited@),
                came_inv(m, start, depth, came@),
                forall|k: int|
                    0 <= k < stack@.len() ==> m.spec_in_bounds(#[trigger] stack@[k])
                        && visited@[m.spec_index_of(stack@[k])],
                forall|k1: int, k2: int|
                    0 <= k1 < stack@.len() && 0 <= k2 < stack@.len() && k1 != k2 ==> (
                    #[trigger] stack@[k1]) != (#[trigger] stack@[k2]),
                forall|j: int|
                    0 <= j < n && #[trigger] visited@[j] ==> expanded(m, visited@, j) || exists|
                        k: int,
                    |
                        0 <= k < stack@.len() && m.spec_index_of(#[trigger] stack@[k]) == j,
                visited@[m.spec_index_of(target)] ==> exists|k: int|
                    0 <= k < stack@.len() && (#[trigger] stack@[k]) == target,
            decreases 5 * (n - count_true(visited@)) + stack@.len(),
        {
            proof {
                lemma_count_true_le_len(visited@);
            }
            let ghost stack_pre = stack@;
            let current = match stack.pop() {
                Some(p) => p,
                None => {
                    proof {
                        assert(false);
                    }
                    start
                },
            };
            proof {
                m.lemma_index_in_range(current);
            }
            let cur_idx = current.to_index(width);
            if current.row == target.row && current.col == target.col {
                proof {
                    assert(current == target);
                    assert(depth[m.spec_index_of(target)] < UNPRICED);
                }
                let path = reconstruct_path(maze, start, target, &came, Ghost(depth));
                return Some(path);
            }
            proof {
                // dropping the popped cell's stack entry leaves every other
                // visited cell covered, since entries are unique
                m.lemma_pos_of_inverse(current);
                assert forall|j: int|
                    0 <= j < n && #[trigger] visited@[j] && j != cur_idx as int && !expanded(
                        m,
                        visited@,
                        j,
                    ) implies exists|k: int|
                    0 <= k < stack@.len() && m.spec_index_of(#[trigger] stack@[k]) == j by {
                    let k = choose|k: int|
                        0 <= k < stack_pre.len() && m.spec_index_of(#[trigger] stack_pre[k]) == j;
                    if k == stack_pre.len() - 1 {
                        m.lemma_pos_of_index(j);
                        m.lemma_index_injective(stack_pre[k], current);
                        assert(false);
                    }
                    assert(stack@[k] == stack_pre[k]);
                }
                if visited@[m.spec_index_of(target)] {
                    let k = choose|k: int|
                        0 <= k < stack_pre.len() && (#[trigger] stack_pre[k]) == target;
                    if k == stack_pre.len() - 1 {
                        assert(false);
                    }
                    assert(stack@[k] == target);
                }
            }
            let neighbors = maze.neighbors(current);
            let ghost count_mid = count_true(visited@);
            let ghost stack_mid = stack@;
            let mut nk: usize = 0;
            while nk < neighbors.len()
                invariant
                    m == *maze,
                    m.wf(),
                    m.spec_in_bounds(start),
                    m.spec_in_bounds(target),
                    width == m.spec_width(),
                    n == m.spec_size(),
                    n <= 255 * 255,
                    start_idx == m.spec_index_of(start),
                    start_idx < n,
                    neighbors@ == m.spec_neighbors(current),
                    nk <= neighbors@.len(),
                    m.spec_in_bounds(current),
                    cur_idx == m.spec_index_of(current),
                    cur_idx < n,
                    visited@.len() == n,
                    depth.len() == n,
                    visited@[start_idx as int],
                    visited@[cur_idx as int],
                    count_true(visited@) <= n,
                    forall|j: int|
                        0 <= j < n ==> ((#[trigger] depth[j]) < UNPRICED <==> visited@[j]),
                    forall|j: int|
                        0 <= j < n && (#[trigger] depth[j]) < UNPRICED ==> depth[j]
                            <= count_true(visited@),
                    came_inv(m, start, depth, came@),
                    forall|k: int|
                        0 <= k < stack@.len() ==> m.spec_in_bounds(#[trigger] stack@[k])
                            && visited@[m.spec_index_of(stack@[k])],
                    forall|k1: int, k2: int|
                        0 <= k1 < stack@.len() && 0 <= k2 < stack@.len() && k1 != k2 ==> (
                        #[trigger] stack@[k1]) != (#[trigger] stack@[k2]),
                    forall|j: int|
                        0 <= j < n && #[trigger] visited@[j] && j != cur_idx as int ==> expanded(
                            m,
                            visited@,
                            j,
                        ) || exists|k: int|
                            0 <= k < stack@.len() && m.spec_index_of(#[trigger] stack@[k]) == j,
                    visited@[m.spec_index_of(target)] ==> exists|k: int|
                        0 <= k < stack@.len() && (#[trigger] stack@[k]) == target,
                    forall|k2: int|
                        0 <= k2 < nk ==> visited@[m.spec_index_of(
                            (#[trigger] neighbors@[k2]).0,
                        )],
                    5 * (n - count_true(visited@)) + stack@.len() < 5 * (n - count_mid)
                        + stack_mid.len() + 1,
                decreases neighbors@.len() - nk,
            {
                proof {
                    m.lemma_neighbors_exact(current);
                }
                let (nbr, dir) = neighbors[nk];
                proof {
                    assert(m.spec_move_ok(current, dir) && nbr == current.spec_step(dir));
                    m.lemma_index_in_range(nbr);
                }
                let nbr_idx = nbr.to_index(width);
                if !visited[nbr_idx] {
                    let ghost visited_old = visited@;
                    let ghost depth_old = depth;
                    let ghost came_old = came@;
                    let ghost stack_old = stack@;
                    visited[nbr_idx] = true;
                    came[nbr_idx] = Some((current, dir));
                    stack.push(nbr);
                    proof {
                        depth = depth.update(
                            nbr_idx as int,
                            (depth_old[cur_idx as int] + 1) as usize,
                        );
                        m.lemma_wf();
                        m.lemma_index_in_range(current);
                        m.lemma_index_in_range(target);
                        lemma_count_true_set(visited_old, nbr_idx as int);
                        lemma_count_true_le_len(visited@);
                        m.lemma_pos_of_inverse(nbr);
                        m.lemma_pos_of_inverse(current);
                        crate::maze::position::lemma_step_changes(
                            current,
                            dir,
                            m.spec_height(),
                            m.spec_width(),
                        );
                        if nbr_idx as int == cur_idx as int {
                            m.lemma_index_injective(nbr, current);
                            assert(false);
                        }
                        // the new cell is not the start (the start is visited)
                        assert(nbr_idx as int != start_idx as int);
                        // predecessor chain: strictly increasing depth
                        assert(depth[cur_idx as int] < depth[nbr_idx as int]);
                        assert forall|j: int|
                            0 <= j < came@.len() && (#[trigger] came@[j]) is Some implies
                        crate::algorithms::pathfinding::search::came_entry_ok(
                            m,
                            depth,
                            came@,
                            j,
                        ) by {
                            if j != nbr_idx as int {
                                assert(came@[j] == came_old[j]);
                                assert(crate::algorithms::pathfinding::search::came_entry_ok(
                                    m,
                                    depth_old,
                                    came_old,
                                    j,
                                ));
                                let (prev, dd) = came_old[j]->0;
                                m.lemma_index_in_range(prev);
                            }
                        }
                        // every uncovered visited cell still has its stack entry
                        assert forall|j: int|
                            0 <= j < n && #[trigger] visited@[j] && j != cur_idx as int
                                && !expanded(m, visited@, j) implies exists|k: int|
                            0 <= k < stack@.len() && m.spec_index_of(#[trigger] stack@[k])
                                == j by {
                            if j == nbr_idx as int {
                                let kn = stack@.len() - 1;
                                assert(m.spec_index_of(stack@[kn]) == j);
                            } else {
                                if !expanded(m, visited_old, j) {
                                    let k = choose|k: int|
                                        0 <= k < stack_old.len() && m.spec_index_of(
                                            #[trigger] stack_old[k],
                                        ) == j;
                                    assert(stack@[k] == stack_old[k]);
                                } else {
                                    assert forall|dd: MoveDirection|
                                        #[trigger] m.spec_move_ok(
                                            m.spec_pos_of(j),
                                            dd,
                                        ) implies visited@[m.spec_index_of(
                                        m.spec_pos_of(j).spec_step(dd),
                                    )] by {
                                        m.lemma_index_in_range(m.spec_pos_of(j).spec_step(dd));
                                        assert(visited_old[m.spec_index_of(
                                            m.spec_pos_of(j).spec_step(dd),
                                        )]);
                                    }
                                }
                            }
                        }
                        assert forall|k: int|
                            0 <= k < stack@.len() implies m.spec_in_bounds(
                            #[trigger] stack@[k],
                        ) && visited@[m.spec_index_of(stack@[k])] by {
                            if k < stack_old.len() {
                                assert(stack@[k] == stack_old[k]);
                                m.lemma_index_in_range(stack_old[k]);
                            } else {
                                assert(stack@[k] == nbr);
                            }
                        }
                        assert forall|k2: int|
                            0 <= k2 < nk + 1 implies visited@[m.spec_index_of(
                            (#[trigger] neighbors@[k2]).0,
                        )] by {
                            assert(neighbors@[k2] == m.spec_neighbors(current)[k2]);
                            let q = neighbors@[k2].0;
                            assert(m.spec_is_walkable(q));
                            m.lemma_index_in_range(q);
                            if k2 < nk {
                                assert(visited_old[m.spec_index_of(q)]);
                            } else {
                                assert(q == nbr);
                            }
                        }
                        if visited@[m.spec_index_of(target)] {
                            if nbr_idx as int == m.spec_index_of(target) {
                                let kn = stack@.len() - 1;
                                m.lemma_index_injective(nbr, target);
                                assert(stack@[kn] == target);
                            } else {
                                let k = choose|k: int|
                                    0 <= k < stack_old.len() && (#[trigger] stack_old[k])
                                        == target;
                                assert(stack@[k] == target);
                            }
                        }
                    }
                } else {
                    proof {
                        assert forall|k2: int|
                            0 <= k2 < nk + 1 implies visited@[m.spec_index_of(
                            (#[trigger] neighbors@[k2]).0,
                        )] by {
                            assert(neighbors@[k2] == m.spec_neighbors(current)[k2]);
                            let q = neighbors@[k2].0;
                            assert(m.spec_is_walkable(q));
                            m.lemma_index_in_range(q);
                            if k2 == nk {
                                assert(q == nbr);
                            }
                        }
                    }
                }
                nk = nk + 1;
            }
            proof {
                // the popped cell is now fully expanded
                m.lemma_neighbors_exact(current);
                m.lemma_pos_of_inverse(current);
                assert forall|dd: MoveDirection|
                    #[trigger] m.spec_move_ok(m.spec_pos_of(cur_idx as int), dd) implies visited@[
                m.spec_index_of(m.spec_pos_of(cur_idx as int).spec_step(dd))] by {
                    assert(m.spec_move_ok(current, dd));
                    let kk = choose|kk: int|
                        0 <= kk < m.spec_neighbors(current).len() && m.spec_neighbors(current)[kk]
                            == (current.spec_step(dd), dd);
                    assert(visited@[m.spec_index_of(neighbors@[kk].0)]);
                }
                assert(expanded(m, visited@, cur_idx as int));
            }
        }
        proof {
            if reachable(m, start, target) {
                let q = choose|q: Seq<MoveDirection>| path_ok(m, start, target, q);
                assert forall|j: int|
                    0 <= j < n && #[trigger] visited@[j] implies expanded(m, visited@, j) by {}
                lemma_visited_closure(m, visited@, start, target, q);
                assert(false);
            }
        }
        None
    }

    fn name(&self) -> (r: &'static str)
        ensures
            r@ == "DFS"@,
    {
        "DFS"
    }
}

} // verus!
