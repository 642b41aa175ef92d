//! The recursive backtracker: depth-first exploration with explicit
//! backtracking. The robot walks into unvisited free cells while any
//! exist, and otherwise navigates back through already-discovered
//! territory toward the most recently recorded branch point.

use vstd::prelude::*;
use vstd::seq_lib::*;
use crate::error::SolverError;
use crate::maze::unbounded::{
    discovered_route_ok,
    in_coord_range,
    lemma_discovered_route_extend,
    shortest_discovered_route,
    UnboundedMaze,
    UnboundedPosition,
};
use crate::types::{MoveDirection, SensorState, SensorsStates};
use crate::algorithms::exploration::traits::ExplorationAlgorithm;

verus! {

/// The unvisited cardinal neighbours the sensors report free, in the
/// fixed order up, down, left, right. A sensed target counts as blocked:
/// the strategy keeps mapping territory instead of rushing to the goal.
pub open spec fn spec_unvisited_neighbors(
    visited: Set<UnboundedPosition>,
    current: UnboundedPosition,
    sensors: SensorsStates,
) -> Seq<(UnboundedPosition, MoveDirection)> {
    spec_unvisited_one(visited, current, sensors, MoveDirection::Up) + spec_unvisited_one(
        visited,
        current,
        sensors,
        MoveDirection::Down,
    ) + spec_unvisited_one(visited, current, sensors, MoveDirection::Left) + spec_unvisited_one(
        visited,
        current,
        sensors,
        MoveDirection::Right,
    )
}

pub open spec fn spec_unvisited_one(
    visited: Set<UnboundedPosition>,
    current: UnboundedPosition,
    sensors: SensorsStates,
    d: MoveDirection,
) -> Seq<(UnboundedPosition, MoveDirection)> {
    if sensors.spec_cardinal(d) is Free && !visited.contains(current.spec_step(d)) {
        seq![(current.spec_step(d), d)]
    } else {
        Seq::empty()
    }
}


/// Whether a sequence of positions holds `q`.
pub open spec fn seen_contains(seen: Seq<UnboundedPosition>, q: UnboundedPosition) -> bool {
    exists|i: int| 0 <= i < seen.len() && seen[i] == q
}

/// Every walkable step out of the cell at index `i` has been seen, at a
/// recorded distance of at most one more than the cell's own.
pub open spec fn bfs_settled(
    m: UnboundedMaze,
    seen: Seq<UnboundedPosition>,
    dists: Seq<int>,
    i: int,
) -> bool {
    forall|d: MoveDirection|
        m.spec_is_walkable(#[trigger] seen[i].spec_step(d)) ==> exists|j: int|
            0 <= j < seen.len() && seen[j] == seen[i].spec_step(d) && dists[j] <= dists[i] + 1
}

/// Growing the seen set keeps a cell settled.
proof fn lemma_settled_monotone(
    m: UnboundedMaze,
    seen_old: Seq<UnboundedPosition>,
    dists_old: Seq<int>,
    seen_new: Seq<UnboundedPosition>,
    dists_new: Seq<int>,
    i: int,
)
    requires
        0 <= i < seen_old.len(),
        bfs_settled(m, seen_old, dists_old, i),
        seen_old.len() <= seen_new.len(),
        forall|j: int| 0 <= j < seen_old.len() ==> seen_new[j] == seen_old[j],
        forall|j: int| 0 <= j < seen_old.len() ==> dists_new[j] == dists_old[j],
    ensures
        bfs_settled(m, seen_new, dists_new, i),
{
    assert forall|d: MoveDirection|
        m.spec_is_walkable(#[trigger] seen_new[i].spec_step(d)) implies exists|j: int|
        0 <= j < seen_new.len() && seen_new[j] == seen_new[i].spec_step(d) && dists_new[j]
            <= dists_new[i] + 1 by {
        assert(seen_new[i] == seen_old[i]);
        let j = choose|j: int|
            0 <= j < seen_old.len() && seen_old[j] == seen_old[i].spec_step(d) && dists_old[j]
                <= dists_old[i] + 1;
        assert(seen_new[j] == seen_old[i].spec_step(d) && dists_new[j] <= dists_new[i] + 1);
    }
}

/// A seen set in which every cell is settled contains the endpoint of
/// every discovered walk leaving it.
proof fn lemma_bfs_closure(
    m: UnboundedMaze,
    seen: Seq<UnboundedPosition>,
    dists: Seq<int>,
    cur: UnboundedPosition,
    goal: UnboundedPosition,
    p: Seq<MoveDirection>,
)
    requires
        seen.len() == dists.len(),
        seen_contains(seen, cur),
        forall|k: int| 0 <= k < seen.len() ==> bfs_settled(m, seen, dists, k),
        discovered_route_ok(m, cur, goal, p),
    ensures
        seen_contains(seen, goal),
    decreases p.len(),
{
    if p.len() > 0 {
        let next = cur.spec_step(p[0]);
        let i = choose|i: int| 0 <= i < seen.len() && seen[i] == cur;
        assert(bfs_settled(m, seen, dists, i));
        assert(m.spec_is_walkable(seen[i].spec_step(p[0])));
        let j = choose|j: int|
            0 <= j < seen.len() && seen[j] == seen[i].spec_step(p[0]) && dists[j] <= dists[i] + 1;
        assert(seen[j] == next);
        lemma_bfs_closure(m, seen, dists, next, goal, p.skip(1));
    }
}

/// The frontier-cut bound of the breadth-first search: along any
/// discovered walk from a seen cell, the endpoint is either already
/// seen within the walk's length budget, or the walk crosses a cell the
/// search has seen but not yet processed, within the same budget.
proof fn lemma_bfs_route_bound(
    m: UnboundedMaze,
    seen: Seq<UnboundedPosition>,
    dists: Seq<int>,
    head: int,
    cur: UnboundedPosition,
    t: UnboundedPosition,
    rest: Seq<MoveDirection>,
    cur_idx: int,
    k: int,
)
    requires
        seen.len() == dists.len(),
        0 <= head <= seen.len(),
        forall|i: int| 0 <= i < head ==> bfs_settled(m, seen, dists, i),
        0 <= cur_idx < seen.len(),
        seen[cur_idx] == cur,
        dists[cur_idx] <= k,
        discovered_route_ok(m, cur, t, rest),
    ensures
        (exists|j: int| 0 <= j < seen.len() && seen[j] == t && dists[j] <= k + rest.len())
            || (exists|j: int| head <= j < seen.len() && dists[j] <= k + rest.len()),
    decreases rest.len(),
{
    if rest.len() == 0 {
        assert(seen[cur_idx] == t && dists[cur_idx] <= k + rest.len());
    } else if cur_idx >= head {
        assert(dists[cur_idx] <= k + rest.len());
    } else {
        let d = rest[0];
        let next = cur.spec_step(d);
        assert(bfs_settled(m, seen, dists, cur_idx));
        assert(m.spec_is_walkable(seen[cur_idx].spec_step(d)));
        let j = choose|j: int|
            0 <= j < seen.len() && seen[j] == seen[cur_idx].spec_step(d) && dists[j]
                <= dists[cur_idx] + 1;
        lemma_bfs_route_bound(m, seen, dists, head, next, t, rest.skip(1), j, k + 1);
    }
}

/// Recursive backtracker state: the cells visited, and the stack of
/// positions passed through on the way to the frontier.
pub struct RecursiveBacktracker {
    visited: Vec<UnboundedPosition>,
    path_stack: Vec<UnboundedPosition>,
}

impl RecursiveBacktracker {
    /// The visited store holds each cell once.
    #[verifier::type_invariant]
    pub closed spec fn wf(self) -> bool {
        self.visited@.no_duplicates()
    }

    pub closed spec fn spec_visited(self) -> Set<UnboundedPosition> {
        self.visited@.to_set()
    }

    pub closed spec fn spec_path_stack(self) -> Seq<UnboundedPosition> {
        self.path_stack@
    }

    /// A fresh backtracker: nothing visited, an empty path stack.
    pub fn new() -> (r: Self)
        ensures
            r.spec_visited() == Set::<UnboundedPosition>::empty(),
            r.spec_path_stack() == Seq::<UnboundedPosition>::empty(),
    {
        proof {
            assert(Seq::<UnboundedPosition>::empty().to_set() =~= Set::empty());
        }
        Self { visited: Vec::new(), path_stack: Vec::new() }
    }

    /// Whether a cell has been visited.
    fn is_visited(&self, pos: UnboundedPosition) -> (r: bool)
        ensures
            r == self.spec_visited().contains(pos),
    {
        let mut i: usize = 0;
        let mut found = false;
        while i < self.visited.len()
            invariant
                i <= self.visited@.len(),
                found == exists|j: int| 0 <= j < i && self.visited@[j] == pos,
            decreases self.visited@.len() - i,
        {
            if self.visited[i] == pos {
                found = true;
            }
            i = i + 1;
        }
        proof {
            broadcast use vstd::set::group_set_axioms;

        }
        found
    }

    /// Marks a cell visited, leaving the path stack unchanged.
    fn record_visit(&mut self, pos: UnboundedPosition)
        ensures
            final(self).spec_visited() == old(self).spec_visited().insert(pos),
            final(self).spec_path_stack() == old(self).spec_path_stack(),
    {
        proof {
            use_type_invariant(&*self);
        }
        let found = self.is_visited(pos);
        if !found {
            let ghost pre = self.visited@;
            let mut v: Vec<UnboundedPosition> = Vec::new();
            std::mem::swap(&mut v, &mut self.visited);
            v.push(pos);
            self.visited = v;
            proof {
                crate::maze::unbounded::lemma_to_set_push(pre, pos);
            }
        } else {
            proof {
                assert(self.visited@.to_set() =~= self.visited@.to_set().insert(pos));
            }
        }
    }

    /// The unvisited cardinal neighbours the sensors report free, each
    /// paired with the direction reaching it.
    fn get_unvisited_neighbors(
        &self,
        current: UnboundedPosition,
        sensors: &SensorsStates,
    ) -> (r: Vec<(UnboundedPosition, MoveDirection)>)
        requires
            in_coord_range(current),
        ensures
            r@ == spec_unvisited_neighbors(self.spec_visited(), current, *sensors),
    {
        let mut unvisited: Vec<(UnboundedPosition, MoveDirection)> = Vec::new();
        let up = current.move_in_direction(MoveDirection::Up);
        if matches!(sensors.cardinal(MoveDirection::Up), SensorState::Free) && !self.is_visited(up)
        {
            unvisited.push((up, MoveDirection::Up));
        }
        let down = current.move_in_direction(MoveDirection::Down);
        if matches!(sensors.cardinal(MoveDirection::Down), SensorState::Free) && !self.is_visited(
            down,
        ) {
            unvisited.push((down, MoveDirection::Down));
        }
        let left = current.move_in_direction(MoveDirection::Left);
        if matches!(sensors.cardinal(MoveDirection::Left), SensorState::Free) && !self.is_visited(
            left,
        ) {
            unvisited.push((left, MoveDirection::Left));
        }
        let right = current.move_in_direction(MoveDirection::Right);
        if matches!(sensors.cardinal(MoveDirection::Right), SensorState::Free) && !self.is_visited(
            right,
        ) {
            unvisited.push((right, MoveDirection::Right));
        }
        proof {
            assert(unvisited@ =~= spec_unvisited_neighbors(self.spec_visited(), current, *sensors));
        }
        unvisited
    }

    /// Breadth-first search through the already-discovered maze, from
    /// `start` toward `goal`; returns the first move of the route found.
    /// A move comes back exactly when the goal is a distinct cell some
    /// walk through discovered walkable terrain reaches, and it is the
    /// first move of a shortest such walk.
    fn find_path_bfs(
        &self,
        maze: &UnboundedMaze,
        start: UnboundedPosition,
        goal: UnboundedPosition,
    ) -> (r: Option<MoveDirection>)
        requires
            in_coord_range(start),
        ensures
            r is Some ==> maze.spec_is_walkable(start.spec_step(r->0)),
            r is Some ==> exists|p: Seq<MoveDirection>|
                shortest_discovered_route(*maze, start, goal, p) && p.len() > 0 && #[trigger] p[0]
                    == r->0,
            r is None ==> start == goal || !exists|p: Seq<MoveDirection>|
                discovered_route_ok(*maze, start, goal, p),
    {
        proof {
            use_type_invariant(maze);
        }
        let ghost m = *maze;
        let ghost bound = maze.spec_len() + 1;
        // each queue entry carries the first move of its discovery route;
        // the ghost distances record how long that route is
        let mut queue: Vec<(UnboundedPosition, Option<MoveDirection>)> = Vec::new();
        let mut seen: Vec<UnboundedPosition> = Vec::new();
        let ghost mut dists: Seq<int> = seq![0];
        let mut head: usize = 0;
        queue.push((start, None));
        seen.push(start);
        proof {
            let p0 = Seq::<MoveDirection>::empty();
            assert(discovered_route_ok(m, start, start, p0) && p0.len() == 0);
            assert(queue@[0].0 == start && dists[0] == 0);
        }
        while head < queue.len()
            invariant
                m == *maze,
                m.wf(),
                in_coord_range(start),
                bound == m.spec_len() + 1,
                head <= queue@.len(),
                seen@.no_duplicates(),
                seen@.len() >= 1,
                seen@[0] == start,
                forall|i: int|
                    0 <= i < seen@.len() ==> (#[trigger] seen@[i]) == start
                        || m.spec_contains(seen@[i]),
                seen@.len() <= bound,
                queue@.len() == seen@.len(),
                dists.len() == seen@.len(),
                dists[0] == 0,
                forall|i: int| 0 <= i < dists.len() ==> 0 <= #[trigger] dists[i],
                forall|i: int, j: int|
                    0 <= i <= j < dists.len() ==> #[trigger] dists[i] <= #[trigger] dists[j],
                head < dists.len() ==> forall|i: int|
                    0 <= i < dists.len() ==> #[trigger] dists[i] <= dists[head as int] + 1,
                forall|k: int| 0 <= k < queue@.len() ==> (#[trigger] queue@[k]).0 == seen@[k],
                forall|k: int|
                    0 <= k < queue@.len() ==> exists|p: Seq<MoveDirection>|
                        discovered_route_ok(m, start, (#[trigger] queue@[k]).0, p) && p.len()
                            == dists[k] && (queue@[k].1 is Some ==> p.len() > 0 && p[0]
                            == queue@[k].1->0),
                forall|k: int|
                    0 <= k < queue@.len() && ((#[trigger] queue@[k]).1) is None ==> queue@[k].0
                        == start,
                forall|k: int| 0 <= k < head ==> bfs_settled(m, seen@, dists, k),
                forall|k: int| 0 <= k < head ==> (#[trigger] seen@[k]) != goal,
            decreases 5 * (bound - seen@.len()) + queue@.len() - head,
        {
            let (current, first) = queue[head];
            if current == goal {
                proof {
                    let hi = head as int;
                    assert(seen@[hi] == goal);
                    // the recorded distance of the goal is minimal among
                    // all discovered walks reaching it
                    assert forall|q: Seq<MoveDirection>|
                        discovered_route_ok(m, start, goal, q) implies dists[hi] <= q.len() by {
                        lemma_bfs_route_bound(m, seen@, dists, hi, start, goal, q, 0, 0);
                        if exists|j: int|
                            0 <= j < seen@.len() && seen@[j] == goal && dists[j] <= q.len() {
                            let j = choose|j: int|
                                0 <= j < seen@.len() && seen@[j] == goal && dists[j] <= q.len();
                            assert(j == hi);
                        } else {
                            let j = choose|j: int|
                                hi <= j < seen@.len() && dists[j] <= q.len();
                            assert(dists[hi] <= dists[j]);
                        }
                    }
                    if first is Some {
                        let k = head as int;
                        let p = choose|p: Seq<MoveDirection>|
                            discovered_route_ok(m, start, (#[trigger] queue@[k]).0, p) && p.len()
                                == dists[k] && (queue@[k].1 is Some ==> p.len() > 0 && p[0]
                                == queue@[k].1->0);
                        assert(shortest_discovered_route(m, start, goal, p));
                        assert(m.spec_is_walkable(start.spec_step(p[0])));
                    }
                }
                return first;
            }
            proof {
                if !(current == start) {
                    maze.lemma_contained_in_range(current);
                }
            }
            let neighbors = maze.neighbors(current);
            let ghost seen_mid = seen@;
            let ghost queue_mid = queue@;
            let mut nk: usize = 0;
            while nk < neighbors.len()
                invariant
                    m == *maze,
                    m.wf(),
                    in_coord_range(start),
                    bound == m.spec_len() + 1,
                    neighbors@ == m.spec_neighbors(current),
                    nk <= neighbors@.len(),
                    in_coord_range(current),
                    head < queue@.len(),
                    queue@[head as int] == (current, first),
                    current != goal,
                    current == start || !(first is None),
                    seen@.no_duplicates(),
                    seen@.len() >= 1,
                    seen@[0] == start,
                    forall|i: int|
                        0 <= i < seen@.len() ==> (#[trigger] seen@[i]) == start
                            || m.spec_contains(seen@[i]),
                    seen@.len() <= bound,
                    queue@.len() == seen@.len(),
                    dists.len() == seen@.len(),
                    dists[0] == 0,
                    forall|i: int| 0 <= i < dists.len() ==> 0 <= #[trigger] dists[i],
                    forall|i: int, j: int|
                        0 <= i <= j < dists.len() ==> #[trigger] dists[i] <= #[trigger] dists[j],
                    forall|i: int|
                        0 <= i < dists.len() ==> #[trigger] dists[i] <= dists[head as int] + 1,
                    forall|k: int| 0 <= k < queue@.len() ==> (#[trigger] queue@[k]).0 == seen@[k],
                    forall|k: int|
                        0 <= k < queue@.len() ==> exists|p: Seq<MoveDirection>|
                            discovered_route_ok(m, start, (#[trigger] queue@[k]).0, p) && p.len()
                                == dists[k] && (queue@[k].1 is Some ==> p.len() > 0 && p[0]
                                == queue@[k].1->0),
                    forall|k: int|
                        0 <= k < queue@.len() && ((#[trigger] queue@[k]).1) is None ==> queue@[k].0
                            == start,
                    forall|k: int| 0 <= k < head ==> bfs_settled(m, seen@, dists, k),
                    forall|k: int| 0 <= k < head ==> (#[trigger] seen@[k]) != goal,
                    forall|k2: int|
                        0 <= k2 < nk ==> seen_contains(seen@, (#[trigger] neighbors@[k2]).0),
                    5 * (bound - seen@.len()) + queue@.len() <= 5 * (bound - seen_mid.len())
                        + queue_mid.len(),
                decreases neighbors@.len() - nk,
            {
                proof {
                    m.lemma_neighbors_exact(current);
                }
                let ghost seen_iter = seen@;
                let (nbr, dir) = neighbors[nk];
                proof {
                    assert(neighbors@[nk as int] == m.spec_neighbors(current)[nk as int]);
                    assert(m.spec_is_walkable(nbr));
                    assert(nbr == current.spec_step(dir));
                    maze.lemma_absent_unknown(nbr);
                    assert(m.spec_contains(nbr));
                }
                let mut already = false;
                let mut i: usize = 0;
                while i < seen.len()
                    invariant
                        i <= seen@.len(),
                        already == exists|j: int| 0 <= j < i && seen@[j] == nbr,
                    decreases seen@.len() - i,
                {
                    if seen[i] == nbr {
                        already = true;
                    }
                    i = i + 1;
                }
                if !already {
                    let ghost seen_old = seen@;
                    let ghost dists_old = dists;
                    let ghost queue_old = queue@;
                    let nbr_first = match first {
                        Some(f) => Some(f),
                        None => Some(dir),
                    };
                    seen.push(nbr);
                    queue.push((nbr, nbr_first));
                    proof {
                        dists = dists.push(dists[head as int] + 1);
                        assert(seen@.drop_last() =~= seen_old);
                        assert(seen@.no_duplicates());
                        maze.lemma_distinct_contained_bound_except(seen@, start);
                        // a route to the new cell: the route to the current
                        // cell extended by this step, one longer
                        let kn = queue@.len() - 1;
                        let pc = choose|p: Seq<MoveDirection>|
                            discovered_route_ok(m, start, (#[trigger] queue_old[head as int]).0, p)
                                && p.len() == dists_old[head as int] && (queue_old[
                            head as int].1 is Some ==> p.len() > 0 && p[0] == queue_old[
                            head as int].1->0);
                        lemma_discovered_route_extend(m, start, current, dir, pc);
                        assert(pc.push(dir)[0] == if pc.len() > 0 {
                            pc[0]
                        } else {
                            dir
                        });
                        if first is None {
                            assert(current == start && pc.len() == 0);
                        }
                        assert(discovered_route_ok(m, start, nbr, pc.push(dir)) && pc.push(
                            dir,
                        ).len() == dists[kn] && pc.push(dir).len() > 0 && pc.push(dir)[0]
                            == nbr_first->0);
                        assert(queue@[kn].0 == nbr && queue@[kn].1 == nbr_first);
                        // processed cells stay settled in the grown set
                        assert forall|k: int|
                            0 <= k < head implies bfs_settled(m, seen@, dists, k) by {
                            lemma_settled_monotone(m, seen_old, dists_old, seen@, dists, k);
                        }
                    }
                }
                proof {
                    assert forall|k2: int|
                        0 <= k2 < nk + 1 implies seen_contains(
                        seen@,
                        (#[trigger] neighbors@[k2]).0,
                    ) by {
                        if k2 == nk {
                            if already {
                                let j = choose|j: int| 0 <= j < seen@.len() && seen@[j] == nbr;
                                assert(seen@[j] == neighbors@[k2].0);
                            } else {
                                assert(seen@[seen@.len() - 1] == nbr);
                            }
                        } else {
                            let j = choose|j: int|
                                0 <= j < seen_iter.len() && seen_iter[j] == neighbors@[k2].0;
                            assert(seen@[j] == neighbors@[k2].0);
                        }
                    }
                }
                nk = nk + 1;
            }
            proof {
                // the processed cell is now settled: each walkable step
                // out of it is seen, within one of its own distance
                m.lemma_neighbors_exact(current);
                let hi = head as int;
                assert(seen@[hi] == current);
                assert forall|d: MoveDirection|
                    m.spec_is_walkable(#[trigger] seen@[hi].spec_step(d)) implies exists|j: int|
                    0 <= j < seen@.len() && seen@[j] == seen@[hi].spec_step(d) && dists[j]
                        <= dists[hi] + 1 by {
                    let kk = choose|kk: int|
                        0 <= kk < m.spec_neighbors(current).len() && m.spec_neighbors(current)[kk]
                            == (current.spec_step(d), d);
                    assert(seen_contains(seen@, neighbors@[kk].0));
                    let j = choose|j: int|
                        0 <= j < seen@.len() && seen@[j] == current.spec_step(d);
                    assert(dists[j] <= dists[hi] + 1);
                }
                assert(bfs_settled(m, seen@, dists, hi));
                // the head advances: every recorded distance stays within
                // one of the next unprocessed cell's
                if head + 1 < dists.len() {
                    assert forall|i: int|
                        0 <= i < dists.len() implies #[trigger] dists[i] <= dists[head + 1]
                        + 1 by {
                        assert(dists[head as int] <= dists[head + 1]);
                    }
                }
            }
            head = head + 1;
        }
        proof {
            if start != goal && exists|p: Seq<MoveDirection>|
                discovered_route_ok(m, start, goal, p) {
                let p = choose|p: Seq<MoveDirection>| discovered_route_ok(m, start, goal, p);
                assert(seen_contains(seen@, start)) by {
                    assert(seen@[0] == start);
                }
                lemma_bfs_closure(m, seen@, dists, start, goal, p);
                let j = choose|j: int| 0 <= j < seen@.len() && seen@[j] == goal;
                assert(seen@[j] != goal);
            }
        }
        None
    }
}

impl ExplorationAlgorithm for RecursiveBacktracker {
    /// One backtracker step. The cell is marked visited; where an
    /// unvisited free neighbour exists the robot moves to the first one
    /// and records the branch point; otherwise it pops the most recent
    /// branch point and takes the first move of a shortest route back to
    /// it through the discovered maze. Exploration is complete when neither
    /// exists; this strategy never fails.
    fn next_move(
        &mut self,
        current_pos: UnboundedPosition,
        sensors: &SensorsStates,
        maze: &UnboundedMaze,
    ) -> (r: Result<Option<MoveDirection>, SolverError>)
        ensures
            r is Ok,
            final(self).spec_visited() == old(self).spec_visited().insert(current_pos),
            ({
                let unvisited = spec_unvisited_neighbors(
                    old(self).spec_visited().insert(current_pos),
                    current_pos,
                    *sensors,
                );
                &&& (unvisited.len() > 0 ==> r == Ok::<Option<MoveDirection>, SolverError>(
                    Some(unvisited[0].1),
                ) && final(self).spec_path_stack() == old(self).spec_path_stack().push(
                    current_pos,
                ))
                &&& (unvisited.len() == 0 && old(self).spec_path_stack().len() > 0 ==> {
                    let back = old(self).spec_path_stack().last();
                    &&& final(self).spec_path_stack() == old(self).spec_path_stack().drop_last()
                    &&& (r matches Ok(Some(d)) ==> exists|p: Seq<MoveDirection>|
                        shortest_discovered_route(*maze, current_pos, back, p) && p.len() > 0
                            && #[trigger] p[0] == d)
                    &&& (r == Ok::<Option<MoveDirection>, SolverError>(None) ==> current_pos
                        == back || !exists|p: Seq<MoveDirection>|
                        discovered_route_ok(*maze, current_pos, back, p))
                })
                &&& (unvisited.len() == 0 && old(self).spec_path_stack().len() == 0 ==> r
                    == Ok::<Option<MoveDirection>, SolverError>(None)
                    && final(self).spec_path_stack() == old(self).spec_path_stack())
            }),
    {
        proof {
            use_type_invariant(&*self);
        }
        self.record_visit(current_pos);
        let unvisited = self.get_unvisited_neighbors(current_pos, sensors);
        if unvisited.len() > 0 {
            let (_next_pos, direction) = unvisited[0];
            let ghost pre = self.path_stack@;
            proof {
                use_type_invariant(&*self);
            }
            let mut s: Vec<UnboundedPosition> = Vec::new();
            std::mem::swap(&mut s, &mut self.path_stack);
            s.push(current_pos);
            self.path_stack = s;
            proof {
                assert(sensors.spec_cardinal(direction) is Free);
            }
            return Ok(Some(direction));
        }
        proof {
            use_type_invariant(&*self);
        }
        let mut s: Vec<UnboundedPosition> = Vec::new();
        std::mem::swap(&mut s, &mut self.path_stack);
        let popped = s.pop();
        self.path_stack = s;
        match popped {
            Some(backtrack_target) => {
                if let Some(first_move) = self.find_path_bfs(maze, current_pos, backtrack_target) {
                    return Ok(Some(first_move));
                }
                Ok(None)
            },
            None => Ok(None),
        }
    }

    fn name(&self) -> (r: &'static str)
        ensures
            r@ == "Recursive Backtracker"@,
    {
        "Recursive Backtracker"
    }

    /// Returns to the initial state: nothing visited, an empty stack.
    fn reset(&mut self)
        ensures
            final(self).spec_visited() == Set::<UnboundedPosition>::empty(),
            final(self).spec_path_stack() == Seq::<UnboundedPosition>::empty(),
    {
        self.visited = Vec::new();
        self.path_stack = Vec::new();
        proof {
            assert(Seq::<UnboundedPosition>::empty().to_set() =~= Set::empty());
        }
    }
}

} // verus!
