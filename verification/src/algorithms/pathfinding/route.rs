//! What a route through a bounded maze is: a sequence of legal, walkable,
//! connected moves. The pathfinding contracts are stated over these
//! predicates, and the optimality arguments rest on the lemmas here.

use vstd::prelude::*;
use vstd::seq_lib::*;
use vstd::set_lib::{lemma_len_subset, lemma_int_range, set_int_range};
use crate::maze::bounded::Maze;
use crate::maze::position::Position;
use crate::types::MoveDirection;

verus! {

/// `path` is a sequence of legal moves through `m` leading from `start`
/// to `end`: every step lands on an in-bounds, walkable cell, and the
/// walk ends exactly at `end`.
pub open spec fn path_ok(m: Maze, start: Position, end: Position, path: Seq<MoveDirection>) -> bool
    decreases path.len(),
{
    if path.len() == 0 {
        start == end
    } else {
        m.spec_move_ok(start, path[0]) && path_ok(m, start.spec_step(path[0]), end, path.skip(1))
    }
}

/// `end` can be reached from `start` by some sequence of legal moves.
pub open spec fn reachable(m: Maze, start: Position, end: Position) -> bool {
    exists|p: Seq<MoveDirection>| path_ok(m, start, end, p)
}

/// `path` is a legal route from `start` to `end` and no legal route is
/// strictly shorter.
pub open spec fn is_shortest_path(
    m: Maze,
    start: Position,
    end: Position,
    path: Seq<MoveDirection>,
) -> bool {
    &&& path_ok(m, start, end, path)
    &&& forall|q: Seq<MoveDirection>| path_ok(m, start, end, q) ==> path.len() <= #[trigger] q.len()
}

/// The position reached after the first `i` moves of `path`, starting
/// from `start`.
pub open spec fn path_pos(start: Position, path: Seq<MoveDirection>, i: int) -> Position
    decreases i,
{
    if i <= 0 {
        start
    } else {
        path_pos(start.spec_step(path[0]), path.skip(1), i - 1)
    }
}

/// Concatenating a route from `s` to `mid` and a route from `mid` to `t`
/// gives a route from `s` to `t`.
pub proof fn lemma_path_ok_compose(
    m: Maze,
    s: Position,
    mid: Position,
    t: Position,
    a: Seq<MoveDirection>,
    b: Seq<MoveDirection>,
)
    requires
        path_ok(m, s, mid, a),
        path_ok(m, mid, t, b),
    ensures
        path_ok(m, s, t, a + b),
    decreases a.len(),
{
    if a.len() == 0 {
        assert(a + b =~= b);
    } else {
        lemma_path_ok_compose(m, s.spec_step(a[0]), mid, t, a.skip(1), b);
        assert((a + b).skip(1) =~= a.skip(1) + b);
        assert((a + b)[0] == a[0]);
    }
}

/// A route splits at any point: its first `i` moves lead from `s` to the
/// position after `i` moves, and the rest lead from there to `t`.
pub proof fn lemma_path_ok_split(m: Maze, s: Position, t: Position, p: Seq<MoveDirection>, i: int)
    requires
        path_ok(m, s, t, p),
        0 <= i <= p.len(),
    ensures
        path_ok(m, s, path_pos(s, p, i), p.take(i)),
        path_ok(m, path_pos(s, p, i), t, p.skip(i)),
    decreases i,
{
    if i == 0 {
        assert(p.take(0) =~= Seq::<MoveDirection>::empty());
        assert(p.skip(0) =~= p);
    } else {
        lemma_path_ok_split(m, s.spec_step(p[0]), t, p.skip(1), i - 1);
        assert(p.take(i)[0] == p[0]);
        assert(p.take(i).skip(1) =~= p.skip(1).take(i - 1));
        assert(p.skip(i) =~= p.skip(1).skip(i - 1));
    }
}

/// Every position a nonempty prefix of a route reaches is walkable.
pub proof fn lemma_path_pos_walkable(
    m: Maze,
    s: Position,
    t: Position,
    p: Seq<MoveDirection>,
    i: int,
)
    requires
        path_ok(m, s, t, p),
        1 <= i <= p.len(),
    ensures
        m.spec_is_walkable(path_pos(s, p, i)),
    decreases i,
{
    if i == 1 {
        assert(path_pos(s.spec_step(p[0]), p.skip(1), 0) == s.spec_step(p[0]));
    } else {
        lemma_path_pos_walkable(m, s.spec_step(p[0]), t, p.skip(1), i - 1);
    }
}

/// The Manhattan distance never exceeds the length of any legal route:
/// each cardinal move changes it by at most one.
pub proof fn lemma_manhattan_le_path_len(m: Maze, s: Position, t: Position, p: Seq<MoveDirection>)
    requires
        m.wf(),
        path_ok(m, s, t, p),
    ensures
        s.spec_manhattan(t) <= p.len(),
    decreases p.len(),
{
    if p.len() == 0 {
    } else {
        m.lemma_wf();
        let s2 = s.spec_step(p[0]);
        lemma_manhattan_le_path_len(m, s2, t, p.skip(1));
        match p[0] {
            MoveDirection::Up => {
                assert(s.row > 0 && s2.row == s.row - 1 && s2.col == s.col);
            },
            MoveDirection::Down => {
                assert(s2.row == s.row + 1 && s2.col == s.col);
            },
            MoveDirection::Left => {
                assert(s.col > 0 && s2.col == s.col - 1 && s2.row == s.row);
            },
            MoveDirection::Right => {
                assert(s2.col == s.col + 1 && s2.row == s.row);
            },
        }
    }
}

/// Any sequence of more than `n` values drawn from `0 .. n` repeats one.
proof fn lemma_pigeonhole(s: Seq<int>, n: int)
    requires
        0 <= n,
        s.len() > n,
        forall|k: int| 0 <= k < s.len() ==> 0 <= #[trigger] s[k] < n,
    ensures
        exists|i: int, j: int| 0 <= i < j < s.len() && s[i] == s[j],
{
    broadcast use vstd::set::group_set_axioms;

    if s.no_duplicates() {
        s.unique_seq_to_set();
        lemma_int_range(0, n);
        assert forall|x: int| s.to_set().contains(x) implies set_int_range(0, n).contains(x) by {
            let k = choose|k: int| 0 <= k < s.len() && s[k] == x;
            assert(0 <= s[k] < n);
        }
        lemma_len_subset(s.to_set(), set_int_range(0, n));
        assert(false);
    } else {
        let (i, j) = choose|i: int, j: int|
            0 <= i < s.len() && 0 <= j < s.len() && i != j && s[i] == s[j];
        if i < j {
            assert(0 <= i < j < s.len() && s[i] == s[j]);
        } else {
            assert(0 <= j < i < s.len() && s[j] == s[i]);
        }
    }
}

/// Wherever some legal route exists, one of length at most the number of
/// cells of the maze exists: a route longer than that revisits a cell and
/// the detour between the two visits can be cut out.
pub proof fn lemma_short_path_exists(m: Maze, s: Position, t: Position)
    requires
        m.wf(),
        reachable(m, s, t),
    ensures
        exists|p: Seq<MoveDirection>|
            path_ok(m, s, t, p) && #[trigger] p.len() <= m.spec_size(),
{
    let p = choose|p: Seq<MoveDirection>| path_ok(m, s, t, p);
    lemma_shorten_path(m, s, t, p);
}

proof fn lemma_shorten_path(m: Maze, s: Position, t: Position, p: Seq<MoveDirection>)
    requires
        m.wf(),
        path_ok(m, s, t, p),
    ensures
        exists|q: Seq<MoveDirection>|
            path_ok(m, s, t, q) && #[trigger] q.len() <= m.spec_size(),
    decreases p.len(),
{
    m.lemma_wf();
    let n = m.spec_size();
    if p.len() <= n {
        assert(path_ok(m, s, t, p) && p.len() <= m.spec_size());
    } else {
        let idxs = Seq::new(p.len(), |k: int| m.spec_index_of(path_pos(s, p, k + 1)));
        assert forall|k: int| 0 <= k < idxs.len() implies 0 <= #[trigger] idxs[k] < n by {
            lemma_path_pos_walkable(m, s, t, p, k + 1);
            m.lemma_index_in_range(path_pos(s, p, k + 1));
        }
        lemma_pigeonhole(idxs, n);
        let (i, j) = choose|i: int, j: int| 0 <= i < j < idxs.len() && idxs[i] == idxs[j];
        let pi = path_pos(s, p, i + 1);
        let pj = path_pos(s, p, j + 1);
        lemma_path_pos_walkable(m, s, t, p, i + 1);
        lemma_path_pos_walkable(m, s, t, p, j + 1);
        m.lemma_index_injective(pi, pj);
        lemma_path_ok_split(m, s, t, p, i + 1);
        lemma_path_ok_split(m, s, t, p, j + 1);
        lemma_path_ok_compose(m, s, pi, t, p.take(i + 1), p.skip(j + 1));
        lemma_shorten_path(m, s, t, p.take(i + 1) + p.skip(j + 1));
    }
}

/// Two shortest routes between the same endpoints have the same length;
/// in particular the routes A* and Dijkstra return are equally long, and
/// that length is the true shortest-path distance.
pub proof fn lemma_shortest_paths_equal_length(
    m: Maze,
    s: Position,
    t: Position,
    p1: Seq<MoveDirection>,
    p2: Seq<MoveDirection>,
)
    requires
        is_shortest_path(m, s, t, p1),
        is_shortest_path(m, s, t, p2),
    ensures
        p1.len() == p2.len(),
{
}

/// No legal route is shorter than a shortest route: whatever route an
/// uninformed search returns, it is at least as long as the one an
/// optimal search returns.
pub proof fn lemma_no_route_beats_shortest(
    m: Maze,
    s: Position,
    t: Position,
    shortest: Seq<MoveDirection>,
    other: Seq<MoveDirection>,
)
    requires
        is_shortest_path(m, s, t, shortest),
        path_ok(m, s, t, other),
    ensures
        shortest.len() <= other.len(),
{
}

} // verus!
