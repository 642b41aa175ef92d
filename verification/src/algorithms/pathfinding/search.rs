//! The cost-ordered search shared by A* and Dijkstra: a frontier ordered
//! by `f = g + h`, a best-known cost per cell, and a predecessor map from
//! which the route is reconstructed. With the Manhattan heuristic it is
//! A*; with `h = 0` it is Dijkstra. Either way the returned route is
//! proved to be a true shortest path, and exhaustion of the frontier is
//! proved to mean the target is unreachable.

use vstd::prelude::*;
use crate::maze::bounded::Maze;
use crate::maze::position::{lemma_step_changes, Position};
use crate::types::MoveDirection;
use crate::algorithms::pathfinding::route::{
    path_ok,
    reachable,
    is_shortest_path,
    lemma_manhattan_le_path_len,
    lemma_short_path_exists,
};

verus! {

/// The cost recorded for a cell the search has not priced yet.
pub const UNPRICED: usize = usize::MAX;

/// One frontier entry: the priority `f = g + h`, the cost `g` the entry
/// was pushed with, and the position it prices.
#[derive(Clone, Copy)]
struct State {
    f_score: u128,
    g_score: usize,
    position: Position,
}

/// The heuristic under which the search orders its frontier: Manhattan
/// distance to the target for A*, zero for Dijkstra.
pub open spec fn spec_heuristic(p: Position, target: Position, use_heuristic: bool) -> int {
    if use_heuristic {
        p.spec_manhattan(target)
    } else {
        0
    }
}

/// The predecessor map is a forest of legal moves rooted at `start`,
/// with costs strictly decreasing toward the root.
pub(crate) open spec fn came_inv(
    m: Maze,
    start: Position,
    dist: Seq<usize>,
    came: Seq<Option<(Position, MoveDirection)>>,
) -> bool {
    &&& dist.len() == m.spec_size()
    &&& came.len() == m.spec_size()
    &&& dist[m.spec_index_of(start)] == 0
    &&& came[m.spec_index_of(start)] is None
    &&& forall|i: int|
        0 <= i < came.len() && (#[trigger] came[i]) is Some ==> came_entry_ok(m, dist, came, i)
    &&& forall|i: int|
        0 <= i < dist.len() && (#[trigger] dist[i]) < UNPRICED && i != m.spec_index_of(start)
            ==> came[i] is Some
}

/// The predecessor entry of cell `i` records a legal move from a
/// strictly cheaper, in-bounds cell onto cell `i`.
pub(crate) open spec fn came_entry_ok(
    m: Maze,
    dist: Seq<usize>,
    came: Seq<Option<(Position, MoveDirection)>>,
    i: int,
) -> bool {
    let (prev, d) = came[i]->0;
    &&& m.spec_in_bounds(prev)
    &&& m.spec_move_ok(prev, d)
    &&& prev.spec_step(d) == m.spec_pos_of(i)
    &&& dist[m.spec_index_of(prev)] < dist[i]
    &&& dist[i] < UNPRICED
}

/// Every legal move out of the cell with index `i` has been priced at no
/// more than one above the cell's own cost.
spec fn settled(m: Maze, dist: Seq<usize>, i: int) -> bool {
    forall|d: MoveDirection|
        #[trigger] m.spec_move_ok(m.spec_pos_of(i), d) ==> dist[m.spec_index_of(
            m.spec_pos_of(i).spec_step(d),
        )] <= dist[i] + 1
}

/// The frontier holds an entry pricing cell `i` at exactly its current
/// best-known cost.
spec fn fresh_entry(open: Seq<State>, m: Maze, dist: Seq<usize>, i: int) -> bool {
    exists|k: int|
        0 <= k < open.len() && (#[trigger] open[k]).position == m.spec_pos_of(i)
            && open[k].g_score == dist[i]
}

/// A frontier entry prices an in-bounds cell, never below the best-known
/// cost, and carries the priority its cost and heuristic dictate.
spec fn entry_wf(m: Maze, target: Position, use_h: bool, dist: Seq<usize>, e: State) -> bool {
    &&& m.spec_in_bounds(e.position)
    &&& dist[m.spec_index_of(e.position)] <= e.g_score
    &&& e.g_score < UNPRICED
    &&& e.f_score == e.g_score + spec_heuristic(e.position, target, use_h)
}

spec fn entries_wf(
    m: Maze,
    target: Position,
    use_h: bool,
    dist: Seq<usize>,
    open: Seq<State>,
) -> bool {
    forall|k: int| 0 <= k < open.len() ==> entry_wf(m, target, use_h, dist, #[trigger] open[k])
}

/// Every priced cell other than the one indexed `except` is settled or
/// still has a fresh frontier entry waiting. With `except == -1` the
/// guarantee covers every priced cell.
spec fn frontier_covers(m: Maze, dist: Seq<usize>, open: Seq<State>, except: int) -> bool {
    forall|i: int|
        0 <= i < dist.len() && (#[trigger] dist[i]) < UNPRICED && i != except ==> settled(
            m,
            dist,
            i,
        ) || fresh_entry(open, m, dist, i)
}

/// Once the target is priced, the frontier holds an entry for it: the
/// search cannot run dry without having popped the target.
spec fn target_tracked(m: Maze, target: Position, dist: Seq<usize>, open: Seq<State>) -> bool {
    dist[m.spec_index_of(target)] < UNPRICED ==> exists|k: int|
        0 <= k < open.len() && (#[trigger] open[k]).position == target
}

/// The sum of a sequence of costs; part of the termination measure.
spec fn sum_costs(s: Seq<usize>) -> nat
    decreases s.len(),
{
    if s.len() == 0 {
        0
    } else {
        sum_costs(s.drop_last()) + s.last() as nat
    }
}

/// Lowering one cost lowers the sum by the same amount.
proof fn lemma_sum_costs_update(s: Seq<usize>, i: int, v: usize)
    requires
        0 <= i < s.len(),
        v <= s[i],
    ensures
        sum_costs(s.update(i, v)) + s[i] == sum_costs(s) + v,
    decreases s.len(),
{
    if i == s.len() - 1 {
        assert(s.update(i, v).drop_last() =~= s.drop_last());
    } else {
        assert(s.update(i, v).drop_last() =~= s.drop_last().update(i, v));
        lemma_sum_costs_update(s.drop_last(), i, v);
    }
}

/// Dropping one frontier entry keeps the others' well-formedness, keeps
/// coverage of every cell but the dropped entry's own, and keeps full
/// coverage where the dropped entry was stale (pricing its cell above
/// the cell's best-known cost).
proof fn lemma_pop_preserves(
    m: Maze,
    target: Position,
    use_h: bool,
    dist: Seq<usize>,
    open_pre: Seq<State>,
    open_post: Seq<State>,
    removed: int,
    e: State,
)
    requires
        entries_wf(m, target, use_h, dist, open_pre),
        frontier_covers(m, dist, open_pre, -1),
        0 <= removed < open_pre.len(),
        open_pre[removed] == e,
        open_post == open_pre.remove(removed),
        dist.len() == m.spec_size(),
    ensures
        entries_wf(m, target, use_h, dist, open_post),
        frontier_covers(m, dist, open_post, m.spec_index_of(e.position)),
        e.g_score != dist[m.spec_index_of(e.position)] ==> frontier_covers(m, dist, open_post, -1),
{
    assert forall|k: int| 0 <= k < open_post.len() implies entry_wf(
        m,
        target,
        use_h,
        dist,
        #[trigger] open_post[k],
    ) by {
        if k < removed {
            assert(open_post[k] == open_pre[k]);
        } else {
            assert(open_post[k] == open_pre[k + 1]);
        }
    }
    let e_idx = m.spec_index_of(e.position);
    assert forall|i: int|
        0 <= i < dist.len() && (#[trigger] dist[i]) < UNPRICED && i != e_idx && !settled(
            m,
            dist,
            i,
        ) implies fresh_entry(open_post, m, dist, i) by {
        let kf = choose|kf: int|
            0 <= kf < open_pre.len() && (#[trigger] open_pre[kf]).position == m.spec_pos_of(i)
                && open_pre[kf].g_score == dist[i];
        if kf == removed {
            m.lemma_pos_of_index(i);
            assert(m.spec_index_of(e.position) == i);
            assert(false);
        }
        if kf < removed {
            assert(open_post[kf] == open_pre[kf]);
        } else {
            assert(open_post[kf - 1] == open_pre[kf]);
        }
    }
    if e.g_score != dist[e_idx] {
        assert forall|i: int|
            0 <= i < dist.len() && (#[trigger] dist[i]) < UNPRICED && !settled(m, dist, i)
            implies fresh_entry(open_post, m, dist, i) by {
            let kf = choose|kf: int|
                0 <= kf < open_pre.len() && (#[trigger] open_pre[kf]).position == m.spec_pos_of(i)
                    && open_pre[kf].g_score == dist[i];
            if kf == removed {
                m.lemma_pos_of_index(i);
                assert(false);
            }
            if kf < removed {
                assert(open_post[kf] == open_pre[kf]);
            } else {
                assert(open_post[kf - 1] == open_pre[kf]);
            }
        }
    }
}

/// After a frontier entry for a cell other than the target is dropped,
/// the target's entry is still present.
proof fn lemma_target_entry_survives(
    m: Maze,
    target: Position,
    dist: Seq<usize>,
    open_pre: Seq<State>,
    open_post: Seq<State>,
    removed: int,
    e: State,
)
    requires
        0 <= removed < open_pre.len(),
        open_pre[removed] == e,
        open_post == open_pre.remove(removed),
        e.position != target,
        target_tracked(m, target, dist, open_pre),
    ensures
        target_tracked(m, target, dist, open_post),
{
    if dist[m.spec_index_of(target)] < UNPRICED {
        let kt = choose|kt: int|
            0 <= kt < open_pre.len() && (#[trigger] open_pre[kt]).position == target;
        assert(kt != removed);
        if kt < removed {
            assert(open_post[kt] == open_pre[kt]);
        } else {
            assert(open_post[kt - 1] == open_pre[kt]);
        }
    }
}

/// Repricing cell `v` down to `tentative = g + 1` along the move `u -> v`
/// and pushing the matching frontier entry maintains every search
/// invariant (with the popped cell `u` still exempt from coverage).
#[verifier::rlimit(30)]
proof fn lemma_relax_step(
    m: Maze,
    start: Position,
    target: Position,
    use_h: bool,
    dist_old: Seq<usize>,
    came_old: Seq<Option<(Position, MoveDirection)>>,
    open_old: Seq<State>,
    dist_new: Seq<usize>,
    came_new: Seq<Option<(Position, MoveDirection)>>,
    open_new: Seq<State>,
    u: Position,
    d: MoveDirection,
    v: Position,
    u_idx: int,
    v_idx: int,
    g: usize,
    tentative: usize,
    f: u128,
)
    requires
        m.wf(),
        m.spec_in_bounds(start),
        m.spec_in_bounds(target),
        came_inv(m, start, dist_old, came_old),
        entries_wf(m, target, use_h, dist_old, open_old),
        frontier_covers(m, dist_old, open_old, u_idx),
        target_tracked(m, target, dist_old, open_old),
        m.spec_in_bounds(u),
        m.spec_move_ok(u, d),
        v == u.spec_step(d),
        u_idx == m.spec_index_of(u),
        v_idx == m.spec_index_of(v),
        0 <= u_idx < dist_old.len(),
        0 <= v_idx < dist_old.len(),
        dist_old[u_idx] == g,
        g < UNPRICED,
        tentative == g + 1,
        tentative < dist_old[v_idx],
        f == tentative + spec_heuristic(v, target, use_h),
        dist_new == dist_old.update(v_idx, tentative),
        came_new == came_old.update(v_idx, Some((u, d))),
        open_new == open_old.push(State { f_score: f, g_score: tentative, position: v }),
    ensures
        dist_new[u_idx] == g,
        came_inv(m, start, dist_new, came_new),
        entries_wf(m, target, use_h, dist_new, open_new),
        frontier_covers(m, dist_new, open_new, u_idx),
        target_tracked(m, target, dist_new, open_new),
        open_new.len() + 5 * sum_costs(dist_new) + 4 <= open_old.len() + 5 * sum_costs(dist_old),
        forall|x: int| 0 <= x < dist_new.len() ==> #[trigger] dist_new[x] <= dist_old[x],
{
    m.lemma_wf();
    m.lemma_index_in_range(start);
    m.lemma_index_in_range(target);
    m.lemma_pos_of_inverse(v);
    m.lemma_pos_of_inverse(u);
    assert forall|x: int| 0 <= x < dist_new.len() implies #[trigger] dist_new[x] <= dist_old[x] by {
        if x == v_idx {
        }
    }
    lemma_step_changes(u, d, m.spec_height(), m.spec_width());
    if v_idx == u_idx {
        m.lemma_index_injective(v, u);
    }
    assert(v_idx != u_idx);
    assert(dist_new[u_idx] == g);
    // v is not the start: the start is priced at zero, below tentative
    assert(v_idx != m.spec_index_of(start));
    let kn = open_new.len() - 1;
    assert(open_new[kn] == State { f_score: f, g_score: tentative, position: v });
    // the predecessor forest still points strictly downhill
    assert forall|i: int|
        0 <= i < came_new.len() && (#[trigger] came_new[i]) is Some implies came_entry_ok(
        m,
        dist_new,
        came_new,
        i,
    ) by {
        if i == v_idx {
            assert(came_new[i] == Some((u, d)));
            assert(dist_new[u_idx] == g < tentative == dist_new[v_idx]);
        } else {
            assert(came_new[i] == came_old[i]);
            assert(came_entry_ok(m, dist_old, came_old, i));
            let (prev, dd) = came_old[i]->0;
            m.lemma_index_in_range(prev);
            assert(dist_new[m.spec_index_of(prev)] <= dist_old[m.spec_index_of(prev)]);
        }
    }
    // frontier entries keep their well-formedness under the repricing
    assert forall|k: int| 0 <= k < open_new.len() implies entry_wf(
        m,
        target,
        use_h,
        dist_new,
        #[trigger] open_new[k],
    ) by {
        if k < open_old.len() {
            assert(open_new[k] == open_old[k]);
            assert(entry_wf(m, target, use_h, dist_old, open_old[k]));
            let ki = m.spec_index_of(open_old[k].position);
            m.lemma_index_in_range(open_old[k].position);
            assert(dist_new[ki] <= dist_old[ki]);
        }
    }
    // settled cells stay settled; the repriced cell gets a fresh entry
    assert forall|i: int|
        0 <= i < dist_new.len() && (#[trigger] dist_new[i]) < UNPRICED && i != u_idx implies
        settled(m, dist_new, i) || fresh_entry(open_new, m, dist_new, i) by {
        if i == v_idx {
            assert(open_new[kn].position == v);
            assert(v == m.spec_pos_of(i));
            assert(open_new[kn].g_score == tentative == dist_new[i]);
        } else {
            assert(dist_new[i] == dist_old[i]);
            if settled(m, dist_old, i) {
                assert forall|dd: MoveDirection|
                    #[trigger] m.spec_move_ok(m.spec_pos_of(i), dd) implies dist_new[
                m.spec_index_of(m.spec_pos_of(i).spec_step(dd))] <= dist_new[i] + 1 by {
                    let si = m.spec_index_of(m.spec_pos_of(i).spec_step(dd));
                    m.lemma_index_in_range(m.spec_pos_of(i).spec_step(dd));
                    assert(dist_old[si] <= dist_old[i] + 1);
                    assert(dist_new[si] <= dist_old[si]);
                }
            } else if fresh_entry(open_old, m, dist_old, i) {
                let kf = choose|kf: int|
                    0 <= kf < open_old.len() && (#[trigger] open_old[kf]).position
                        == m.spec_pos_of(i) && open_old[kf].g_score == dist_old[i];
                assert(open_new[kf] == open_old[kf]);
            }
        }
    }
    // the target stays tracked
    if dist_new[m.spec_index_of(target)] < UNPRICED {
        let ti = m.spec_index_of(target);
        if v_idx == ti {
            m.lemma_pos_of_inverse(target);
            m.lemma_index_injective(v, target);
            assert(open_new[kn].position == v);
            assert(v == target);
        } else {
            assert(dist_old[ti] == dist_new[ti]);
            let kt = choose|kt: int|
                0 <= kt < open_old.len() && (#[trigger] open_old[kt]).position == target;
            assert(open_new[kt] == open_old[kt]);
        }
    }
    // the termination measure drops by at least four
    lemma_sum_costs_update(dist_old, v_idx, tentative);
}

/// Along any legal route from `cur` to the target, either the target is
/// already priced within the route's budget, or the frontier holds an
/// entry whose priority is within it. This is the frontier-cut argument:
/// a cheaper route cannot hide from a cost-ordered search.
proof fn lemma_route_bounds_search(
    m: Maze,
    target: Position,
    use_h: bool,
    dist: Seq<usize>,
    open: Seq<State>,
    cur: Position,
    rest: Seq<MoveDirection>,
    k: int,
)
    requires
        m.wf(),
        dist.len() == m.spec_size(),
        m.spec_in_bounds(cur),
        m.spec_in_bounds(target),
        path_ok(m, cur, target, rest),
        0 <= k,
        dist[m.spec_index_of(cur)] <= k,
        entries_wf(m, target, use_h, dist, open),
        frontier_covers(m, dist, open, -1),
    ensures
        dist[m.spec_index_of(target)] <= k + rest.len() || exists|e: int|
            0 <= e < open.len() && (#[trigger] open[e]).f_score <= k + rest.len(),
    decreases rest.len(),
{
    let ci = m.spec_index_of(cur);
    let ti = m.spec_index_of(target);
    m.lemma_index_in_range(cur);
    m.lemma_index_in_range(target);
    if rest.len() == 0 {
        // cur == target
    } else if k >= UNPRICED {
        assert(dist[ti] <= UNPRICED <= k);
    } else {
        assert(dist[ci] < UNPRICED);
        m.lemma_pos_of_inverse(cur);
        if settled(m, dist, ci) {
            let d = rest[0];
            let next = cur.spec_step(d);
            assert(m.spec_move_ok(m.spec_pos_of(ci), d));
            assert(dist[m.spec_index_of(next)] <= dist[ci] + 1 <= k + 1);
            lemma_route_bounds_search(m, target, use_h, dist, open, next, rest.skip(1), k + 1);
        } else {
            let e = choose|e: int|
                0 <= e < open.len() && (#[trigger] open[e]).position == m.spec_pos_of(ci)
                    && open[e].g_score == dist[ci];
            assert(entry_wf(m, target, use_h, dist, open[e]));
            if use_h {
                lemma_manhattan_le_path_len(m, cur, target, rest);
            }
            assert(open[e].f_score <= k + rest.len());
        }
    }
}

/// Walks the predecessor map back from the target and returns the route
/// in forward order. The route is legal and no longer than the cost the
/// search recorded for the target.
pub(crate) fn reconstruct_path(
    maze: &Maze,
    start: Position,
    target: Position,
    came: &Vec<Option<(Position, MoveDirection)>>,
    Ghost(dist): Ghost<Seq<usize>>,
) -> (r: Vec<MoveDirection>)
    requires
        maze.spec_in_bounds(start),
        maze.spec_in_bounds(target),
        came_inv(*maze, start, dist, came@),
        dist[maze.spec_index_of(target)] < UNPRICED,
    ensures
        path_ok(*maze, start, target, r@),
        r@.len() <= dist[maze.spec_index_of(target)],
{
    proof {
        use_type_invariant(maze);
        maze.lemma_wf();
    }
    let width = maze.width();
    let mut current = target;
    let mut path: Vec<MoveDirection> = Vec::new();
    proof {
        maze.lemma_index_in_range(target);
    }
    while current.row != start.row || current.col != start.col
        invariant
            maze.wf(),
            maze.spec_in_bounds(start),
            maze.spec_in_bounds(target),
            maze.spec_in_bounds(current),
            width == maze.spec_width(),
            came_inv(*maze, start, dist, came@),
            dist[maze.spec_index_of(current)] < UNPRICED,
            path_ok(*maze, current, target, path@),
            path@.len() + dist[maze.spec_index_of(current)] <= dist[maze.spec_index_of(target)],
        decreases dist[maze.spec_index_of(current)],
    {
        proof {
            maze.lemma_wf();
            maze.lemma_index_in_range(current);
        }
        let k = current.to_index(width);
        let (prev, d) = match came[k] {
            Some(pd) => pd,
            None => {
                // impossible: a priced cell other than the start always
                // has a predecessor
                proof {
                    if maze.spec_index_of(current) == maze.spec_index_of(start) {
                        maze.lemma_index_injective(current, start);
                    }
                    assert(false);
                }
                (start, MoveDirection::Up)
            },
        };
        let ghost old_path = path@;
        path.insert(0, d);
        proof {
            assert(came_entry_ok(*maze, dist, came@, k as int));
            maze.lemma_pos_of_inverse(current);
            maze.lemma_index_in_range(prev);
            assert(path@.skip(1) =~= old_path);
            assert(path@[0] == d);
        }
        current = prev;
    }
    path
}

/// The cost-ordered search. Returns a true shortest route from `start`
/// to `target`, or `None` exactly when no route exists. With
/// `use_heuristic` the frontier is ordered by cost plus Manhattan
/// distance (A*); without it, by cost alone (Dijkstra). Ties are broken
/// deterministically by row then column.
#[verifier::rlimit(100)]
pub(crate) fn shortest_search(
    maze: &Maze,
    start: Position,
    target: Position,
    use_heuristic: bool,
) -> (r: Option<Vec<MoveDirection>>)
    requires
        maze.spec_in_bounds(start),
        maze.spec_in_bounds(target),
    ensures
        r is Some ==> is_shortest_path(*maze, start, target, r->0@),
        r is None ==> !reachable(*maze, start, target),
{
    let ghost m = *maze;
    proof {
        use_type_invariant(maze);
        maze.lemma_wf();
        maze.lemma_index_in_range(start);
        maze.lemma_index_in_range(target);
    }
    let (height, width) = maze.bounds();
    proof {
        assert(height * width == m.spec_size() && height * width <= 255 * 255)
            by (nonlinear_arith)
            requires
                height == m.spec_height(),
                width == m.spec_width(),
                0 <= m.spec_height() <= 255,
                0 <= m.spec_width() <= 255,
        ;
    }
    let n = height * width;
    let mut dist: Vec<usize> = Vec::new();
    let mut came: Vec<Option<(Position, MoveDirection)>> = Vec::new();
    let mut i: usize = 0;
    while i < n
        invariant
            i <= n,
            dist@.len() == i,
            came@.len() == i,
            forall|j: int| 0 <= j < i ==> dist@[j] == UNPRICED,
            forall|j: int| 0 <= j < i ==> came@[j] is None,
        decreases n - i,
    {
        dist.push(UNPRICED);
        came.push(None);
        i = i + 1;
    }
    let start_idx = start.to_index(width);
    dist[start_idx] = 0;
    let start_h = if use_heuristic {
        proof {
            assert(start.spec_manhattan(target) <= 510);
        }
        start.manhattan_distance(target)
    } else {
        0
    };
    let mut open: Vec<State> = Vec::new();
    open.push(State { f_score: start_h as u128, g_score: 0, position: start });
    proof {
        m.lemma_pos_of_inverse(start);
        assert(came_inv(m, start, dist@, came@));
        let ghost si = start_idx as int;
        assert(open@[0].position == m.spec_pos_of(si) && open@[0].g_score == dist@[si]);
        assert forall|i2: int|
            0 <= i2 < dist@.len() && (#[trigger] dist@[i2]) < UNPRICED && i2 != -1 implies
        settled(m, dist@, i2) || fresh_entry(open@, m, dist@, i2) by {
            assert(i2 == si);
            assert(fresh_entry(open@, m, dist@, si));
        }
        if dist@[m.spec_index_of(target)] < UNPRICED {
            assert(m.spec_index_of(target) == si);
            m.lemma_index_injective(target, start);
            assert(open@[0].position == target);
        }
    }
    while open.len() > 0
        invariant
            m == *maze,
            m.wf(),
            m.spec_in_bounds(start),
            m.spec_in_bounds(target),
            width == m.spec_width(),
            n == m.spec_size(),
            n <= 255 * 255,
            start_idx == m.spec_index_of(start),
            came_inv(m, start, dist@, came@),
            entries_wf(m, target, use_heuristic, dist@, open@),
            frontier_covers(m, dist@, open@, -1),
            target_tracked(m, target, dist@, open@),
        decreases open@.len() + 5 * sum_costs(dist@),
    {
        let ghost open_pre = open@;
        let ghost dist_pre = dist@;
        // select the frontier entry with the least priority; ties broken
        // by the greater row, then the greater column
        let mut best: usize = 0;
        let mut k: usize = 1;
        while k < open.len()
            invariant
                open@.len() >= 1,
                best < k,
                k <= open@.len(),
                forall|j: int| 0 <= j < k ==> (#[trigger] open@[j]).f_score >= open@[
                    best as int
                ].f_score,
            decreases open@.len() - k,
        {
            let cand = open[k];
            let cur = open[best];
            let replace = if cand.f_score < cur.f_score {
                true
            } else if cand.f_score == cur.f_score {
                if cand.position.row > cur.position.row {
                    true
                } else if cand.position.row == cur.position.row {
                    cand.position.col > cur.position.col
                } else {
                    false
                }
            } else {
                false
            };
            if replace {
                best = k;
            }
            k = k + 1;
        }
        let e = open.remove(best);
        proof {
            assert(forall|j: int|
                0 <= j < open_pre.len() ==> (#[trigger] open_pre[j]).f_score >= e.f_score);
            assert(entry_wf(m, target, use_heuristic, dist@, e));
            m.lemma_index_in_range(e.position);
            lemma_pop_preserves(
                m,
                target,
                use_heuristic,
                dist@,
                open_pre,
                open@,
                best as int,
                e,
            );
        }
        if e.position == target {
            proof {
                let ti = m.spec_index_of(target);
                assert(target.spec_manhattan(target) == 0);
                assert(e.f_score == e.g_score);
                assert forall|q: Seq<MoveDirection>| path_ok(m, start, target, q) implies dist@[ti]
                    <= #[trigger] q.len() by {
                    lemma_route_bounds_search(
                        m,
                        target,
                        use_heuristic,
                        dist_pre,
                        open_pre,
                        start,
                        q,
                        0,
                    );
                    if !(dist@[ti] <= q.len()) {
                        let ee = choose|ee: int|
                            0 <= ee < open_pre.len() && (#[trigger] open_pre[ee]).f_score <= 0
                                + q.len();
                        assert(open_pre[ee].f_score >= e.f_score);
                        assert(dist@[ti] <= e.g_score);
                    }
                }
            }
            let path = reconstruct_path(maze, start, target, &came, Ghost(dist@));
            proof {
                assert(path_ok(m, start, target, path@));
                assert(forall|q: Seq<MoveDirection>|
                    path_ok(m, start, target, q) ==> path@.len() <= #[trigger] q.len());
            }
            return Some(path);
        }
        let u = e.position;
        let u_idx = u.to_index(width);
        let g = e.g_score;
        if g > dist[u_idx] {
            // a stale entry: the cell has been repriced more cheaply since
            proof {
                lemma_target_entry_survives(m, target, dist@, open_pre, open@, best as int, e);
            }
            continue ;
        }
        proof {
            assert(g == dist@[u_idx as int]);
            lemma_target_entry_survives(m, target, dist@, open_pre, open@, best as int, e);
        }
        let neighbors = maze.neighbors(u);
        let ghost open_mid = open@;
        let ghost dist_mid = dist@;
        let mut nk: usize = 0;
        while nk < neighbors.len()
            invariant
                m == *maze,
                m.wf(),
                m.spec_in_bounds(start),
                m.spec_in_bounds(target),
                width == m.spec_width(),
                n == m.spec_size(),
                start_idx == m.spec_index_of(start),
                neighbors@ == m.spec_neighbors(u),
                nk <= neighbors@.len(),
                m.spec_in_bounds(u),
                u_idx == m.spec_index_of(u),
                g < UNPRICED,
                dist@[u_idx as int] == g,
                came_inv(m, start, dist@, came@),
                entries_wf(m, target, use_heuristic, dist@, open@),
                frontier_covers(m, dist@, open@, u_idx as int),
                target_tracked(m, target, dist@, open@),
                forall|k2: int|
                    0 <= k2 < nk ==> dist@[m.spec_index_of(
                        (#[trigger] neighbors@[k2]).0,
                    )] <= g + 1,
                open@.len() + 5 * sum_costs(dist@) <= open_mid.len() + 5 * sum_costs(dist_mid),
            decreases neighbors@.len() - nk,
        {
            proof {
                m.lemma_neighbors_exact(u);
            }
            let (v, d) = neighbors[nk];
            proof {
                assert(m.spec_move_ok(u, d) && v == u.spec_step(d));
                m.lemma_index_in_range(v);
            }
            proof {
                m.lemma_index_in_range(u);
            }
            let v_idx = v.to_index(width);
            let tentative = g + 1;
            if tentative < dist[v_idx] {
                let ghost dist_old = dist@;
                let ghost open_old = open@;
                let ghost came_old = came@;
                dist[v_idx] = tentative;
                came[v_idx] = Some((u, d));
                let vh = if use_heuristic {
                    proof {
                        m.lemma_wf();
                        assert(v.spec_manhattan(target) <= 510);
                    }
                    v.manhattan_distance(target)
                } else {
                    0
                };
                let f = tentative as u128 + vh as u128;
                open.push(State { f_score: f, g_score: tentative, position: v });
                proof {
                    lemma_relax_step(
                        m,
                        start,
                        target,
                        use_heuristic,
                        dist_old,
                        came_old,
                        open_old,
                        dist@,
                        came@,
                        open@,
                        u,
                        d,
                        v,
                        u_idx as int,
                        v_idx as int,
                        g,
                        tentative,
                        f,
                    );
                    assert forall|k2: int|
                        0 <= k2 < nk + 1 implies dist@[m.spec_index_of(
                        (#[trigger] neighbors@[k2]).0,
                    )] <= g + 1 by {
                        if k2 < nk {
                            assert(neighbors@[k2] == m.spec_neighbors(u)[k2]);
                            let q = neighbors@[k2].0;
                            assert(m.spec_is_walkable(q));
                            m.lemma_index_in_range(q);
                            assert(dist_old[m.spec_index_of(q)] <= g + 1);
                            assert(dist@[m.spec_index_of(q)] <= dist_old[m.spec_index_of(q)]);
                        } else {
                            assert(neighbors@[k2].0 == v);
                            assert(dist@[v_idx as int] == tentative);
                        }
                    }
                }
            } else {
                proof {
                    assert forall|k2: int|
                        0 <= k2 < nk + 1 implies dist@[m.spec_index_of(
                        (#[trigger] neighbors@[k2]).0,
                    )] <= g + 1 by {}
                }
            }
            nk = nk + 1;
        }
        proof {
            // the popped cell is now settled, so full coverage is restored
            m.lemma_neighbors_exact(u);
            m.lemma_pos_of_inverse(u);
            assert forall|dd: MoveDirection|
                #[trigger] m.spec_move_ok(m.spec_pos_of(u_idx as int), dd) implies dist@[
            m.spec_index_of(m.spec_pos_of(u_idx as int).spec_step(dd))] <= dist@[u_idx as int]
                + 1 by {
                assert(m.spec_move_ok(u, dd));
                let kk = choose|kk: int|
                    0 <= kk < m.spec_neighbors(u).len() && m.spec_neighbors(u)[kk] == (
                    u.spec_step(dd),
                    dd,
                    );
                assert(dist@[m.spec_index_of(neighbors@[kk].0)] <= g + 1);
            }
            assert(settled(m, dist@, u_idx as int));
            assert forall|i2: int|
                0 <= i2 < dist@.len() && (#[trigger] dist@[i2]) < UNPRICED && i2 != -1 implies
            settled(m, dist@, i2) || fresh_entry(open@, m, dist@, i2) by {
                if i2 != u_idx as int {
                    assert(settled(m, dist@, i2) || fresh_entry(open@, m, dist@, i2));
                }
            }
        }
    }
    proof {
        if reachable(m, start, target) {
            lemma_short_path_exists(m, start, target);
            let q = choose|q: Seq<MoveDirection>|
                path_ok(m, start, target, q) && #[trigger] q.len() <= m.spec_size();
            lemma_route_bounds_search(m, target, use_heuristic, dist@, open@, start, q, 0);
            assert(dist@[m.spec_index_of(target)] <= q.len() < UNPRICED);
            assert(false);
        }
    }
    None
}

} // verus!
