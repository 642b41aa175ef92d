//! The sparse, signed-coordinate maze grown incrementally from sensor
//! readings during blind exploration.

use vstd::prelude::*;
use vstd::seq_lib::*;
use vstd::set_lib::lemma_len_subset;
use crate::maze::cell::Cell;
use crate::types::{MoveDirection, SensorsStates};

verus! {

/// A position with signed coordinates, used while the discovered
/// footprint of the maze is not yet known.
#[derive(Debug, Clone, Copy, PartialEq, Eq, Hash, Structural)]
pub struct UnboundedPosition {
    pub row: isize,
    pub col: isize,
}

/// Coordinates strictly inside the `isize` range, so that every cardinal
/// step stays representable.
pub open spec fn in_coord_range(p: UnboundedPosition) -> bool {
    &&& isize::MIN < p.row < isize::MAX
    &&& isize::MIN < p.col < isize::MAX
}

impl UnboundedPosition {
    pub fn new(row: isize, col: isize) -> (r: Self)
        ensures
            r == (UnboundedPosition { row, col }),
    {
        Self { row, col }
    }

    /// The position one step away in the given direction.
    pub open spec fn spec_step(self, direction: MoveDirection) -> UnboundedPosition {
        match direction {
            MoveDirection::Up => UnboundedPosition { row: (self.row - 1) as isize, col: self.col },
            MoveDirection::Down => UnboundedPosition { row: (self.row + 1) as isize, col: self.col },
            MoveDirection::Left => UnboundedPosition { row: self.row, col: (self.col - 1) as isize },
            MoveDirection::Right => UnboundedPosition {
                row: self.row,
                col: (self.col + 1) as isize,
            },
        }
    }

    /// The position offset by `(dr, dc)`.
    pub open spec fn spec_offset(self, dr: int, dc: int) -> UnboundedPosition {
        UnboundedPosition { row: (self.row + dr) as isize, col: (self.col + dc) as isize }
    }

    /// Moves one step in the given direction; there are no bounds to
    /// check.
    pub fn move_in_direction(&self, direction: MoveDirection) -> (r: UnboundedPosition)
        requires
            in_coord_range(*self),
        ensures
            r == self.spec_step(direction),
    {
        match direction {
            MoveDirection::Up => Self::new(self.row - 1, self.col),
            MoveDirection::Down => Self::new(self.row + 1, self.col),
            MoveDirection::Left => Self::new(self.row, self.col - 1),
            MoveDirection::Right => Self::new(self.row, self.col + 1),
        }
    }

    /// The four cardinal neighbours, in the fixed order up, down, left,
    /// right, each paired with the direction reaching it.
    pub open spec fn spec_neighbors(self) -> Seq<(UnboundedPosition, MoveDirection)> {
        seq![
            (self.spec_step(MoveDirection::Up), MoveDirection::Up),
            (self.spec_step(MoveDirection::Down), MoveDirection::Down),
            (self.spec_step(MoveDirection::Left), MoveDirection::Left),
            (self.spec_step(MoveDirection::Right), MoveDirection::Right),
        ]
    }

    /// The four cardinal neighbours of this position, paired with the
    /// directions that reach them.
    pub fn neighbors(&self) -> (r: Vec<(UnboundedPosition, MoveDirection)>)
        requires
            in_coord_range(*self),
        ensures
            r@ == self.spec_neighbors(),
    {
        let mut result: Vec<(UnboundedPosition, MoveDirection)> = Vec::new();
        result.push((self.move_in_direction(MoveDirection::Up), MoveDirection::Up));
        result.push((self.move_in_direction(MoveDirection::Down), MoveDirection::Down));
        result.push((self.move_in_direction(MoveDirection::Left), MoveDirection::Left));
        result.push((self.move_in_direction(MoveDirection::Right), MoveDirection::Right));
        proof {
            assert(result@ =~= self.spec_neighbors());
        }
        result
    }
}

/// A maze that grows dynamically: a sparse association from signed
/// positions to cells. An absent position reads as `Unknown`.
pub struct UnboundedMaze {
    cells: Vec<(UnboundedPosition, Cell)>,
}

impl UnboundedMaze {
    /// Well-formedness: keys are unique and every stored coordinate
    /// admits a cardinal step in either direction.
    #[verifier::type_invariant]
    pub closed spec fn wf(self) -> bool {
        &&& forall|k1: int, k2: int|
            0 <= k1 < self.cells@.len() && 0 <= k2 < self.cells@.len() && k1 != k2 ==> (
            #[trigger] self.cells@[k1]).0 != (#[trigger] self.cells@[k2]).0
        &&& forall|k: int|
            0 <= k < self.cells@.len() ==> in_coord_range((#[trigger] self.cells@[k]).0)
    }

    /// Whether a position has ever been written.
    pub closed spec fn spec_contains(self, p: UnboundedPosition) -> bool {
        exists|k: int| 0 <= k < self.cells@.len() && (#[trigger] self.cells@[k]).0 == p
    }

    /// The cell recorded at a position; `Unknown` where none was.
    pub closed spec fn spec_get(self, p: UnboundedPosition) -> Cell {
        if self.spec_contains(p) {
            let k = choose|k: int| 0 <= k < self.cells@.len() && (#[trigger] self.cells@[k]).0 == p;
            self.cells@[k].1
        } else {
            Cell::Unknown
        }
    }

    /// The number of positions written so far.
    pub closed spec fn spec_len(self) -> nat {
        self.cells@.len()
    }

    pub open spec fn spec_is_walkable(self, p: UnboundedPosition) -> bool {
        self.spec_get(p).spec_is_walkable()
    }

    /// A position that was never written reads as `Unknown`.
    pub proof fn lemma_absent_unknown(self, p: UnboundedPosition)
        ensures
            !self.spec_contains(p) ==> self.spec_get(p) == Cell::Unknown,
    {
    }

    /// Every written position has coordinates in range.
    pub proof fn lemma_contained_in_range(self, p: UnboundedPosition)
        requires
            self.wf(),
            self.spec_contains(p),
        ensures
            in_coord_range(p),
    {
        let k = choose|k: int| 0 <= k < self.cells@.len() && (#[trigger] self.cells@[k]).0 == p;
        assert(in_coord_range(self.cells@[k].0));
    }

    /// A duplicate-free sequence of positions, each written or equal to
    /// one extra position, is at most one longer than the store.
    pub proof fn lemma_distinct_contained_bound_except(
        self,
        ps: Seq<UnboundedPosition>,
        extra: UnboundedPosition,
    )
        requires
            self.wf(),
            ps.no_duplicates(),
            forall|i: int|
                0 <= i < ps.len() ==> (#[trigger] ps[i]) == extra || self.spec_contains(ps[i]),
        ensures
            ps.len() <= self.spec_len() + 1,
    {
        broadcast use vstd::set::group_set_axioms;
        broadcast use vstd::seq_lib::seq_to_set_is_finite;

        let keys = self.cells@.map(|k: int, e: (UnboundedPosition, Cell)| e.0);
        ps.unique_seq_to_set();
        keys.lemma_cardinality_of_set();
        let bigger = keys.to_set().insert(extra);
        assert forall|p: UnboundedPosition| ps.to_set().contains(p) implies bigger.contains(
            p,
        ) by {
            let i = choose|i: int| 0 <= i < ps.len() && ps[i] == p;
            if ps[i] == extra {
            } else {
                assert(self.spec_contains(ps[i]));
                let k = choose|k: int|
                    0 <= k < self.cells@.len() && (#[trigger] self.cells@[k]).0 == p;
                assert(keys[k] == p);
            }
        }
        assert(bigger.len() <= keys.to_set().len() + 1) by {
            if keys.to_set().contains(extra) {
                assert(bigger =~= keys.to_set());
            }
        }
        lemma_len_subset(ps.to_set(), bigger);
    }

    /// An empty maze: nothing has been observed yet.
    pub fn new() -> (r: Self)
        ensures
            forall|q: UnboundedPosition| !r.spec_contains(q),
            forall|q: UnboundedPosition| r.spec_get(q) == Cell::Unknown,
            r.spec_len() == 0,
    {
        Self { cells: Vec::new() }
    }

    /// The index of a key in the store, if present.
    fn find_key(&self, pos: UnboundedPosition) -> (r: Option<usize>)
        requires
            self.wf(),
        ensures
            r is Some ==> r->0 < self.cells@.len() && self.cells@[r->0 as int].0 == pos,
            r is None ==> !self.spec_contains(pos),
    {
        let mut i: usize = 0;
        while i < self.cells.len()
            invariant
                i <= self.cells@.len(),
                forall|j: int| 0 <= j < i ==> (#[trigger] self.cells@[j]).0 != pos,
            decreases self.cells@.len() - i,
        {
            if self.cells[i].0 == pos {
                return Some(i);
            }
            i = i + 1;
        }
        None
    }

    /// Reads the cell at a position; returns `Unknown` where the position
    /// was never observed.
    pub fn get(&self, pos: UnboundedPosition) -> (r: Cell)
        ensures
            r == self.spec_get(pos),
    {
        proof {
            use_type_invariant(self);
        }
        match self.find_key(pos) {
            Some(i) => {
                proof {
                    let k = choose|k: int|
                        0 <= k < self.cells@.len() && (#[trigger] self.cells@[k]).0 == pos;
                    assert(k == i);
                }
                self.cells[i].1
            },
            None => Cell::Unknown,
        }
    }

    /// Writes the cell at a position, overwriting any prior value.
    pub fn set(&mut self, pos: UnboundedPosition, cell: Cell)
        requires
            in_coord_range(pos),
        ensures
            final(self).spec_get(pos) == cell,
            final(self).spec_contains(pos),
            forall|q: UnboundedPosition|
                q != pos ==> final(self).spec_get(q) == old(self).spec_get(q),
            forall|q: UnboundedPosition|
                q != pos ==> (final(self).spec_contains(q) == old(self).spec_contains(q)),
            final(self).spec_len() <= old(self).spec_len() + 1,
    {
        proof {
            use_type_invariant(&*self);
        }
        let found = self.find_key(pos);
        let ghost pre = *self;
        let mut cells: Vec<(UnboundedPosition, Cell)> = Vec::new();
        std::mem::swap(&mut cells, &mut self.cells);
        if let Some(i) = found {
            cells.remove(i);
        }
        let ghost mid = UnboundedMaze { cells: cells };
        cells.push((pos, cell));
        proof {
            let n = cells@.len() - 1;
            assert(cells@[n] == (pos, cell));
            assert forall|j: int|
                0 <= j < mid.cells@.len() implies (#[trigger] mid.cells@[j]).0 != pos by {
                if let Some(i) = found {
                    if j < i as int {
                        assert(pre.cells@[j].0 != pos);
                    } else {
                        assert(pre.cells@[j + 1].0 != pos);
                    }
                } else {
                    assert(!pre.spec_contains(pos));
                    assert(pre.cells@[j].0 != pos);
                }
            }
        }
        self.cells = cells;
        proof {
            let n = self.cells@.len() - 1;
            // keys other than pos keep their entries and values
            assert forall|q: UnboundedPosition| q != pos implies self.spec_get(q)
                == pre.spec_get(q) && self.spec_contains(q) == pre.spec_contains(q) by {
                lemma_set_preserves_other(pre, mid, *self, pos, cell, q, found);
            }
            assert(self.spec_get(pos) == cell) by {
                assert(self.cells@[n].0 == pos);
                assert(self.spec_contains(pos));
                let k = choose|k: int|
                    0 <= k < self.cells@.len() && (#[trigger] self.cells@[k]).0 == pos;
                if k != n {
                    assert(mid.cells@[k].0 == pos);
                }
            }
        }
    }

    /// Whether the recorded cell at a position is walkable. Unknown
    /// terrain is not.
    pub fn is_walkable(&self, pos: UnboundedPosition) -> (r: bool)
        ensures
            r == self.spec_is_walkable(pos),
    {
        self.get(pos).is_walkable()
    }

    /// The walkable cardinal neighbours of a position, in the fixed order
    /// up, down, left, right, each paired with the direction reaching it.
    pub open spec fn spec_neighbors(self, p: UnboundedPosition) -> Seq<
        (UnboundedPosition, MoveDirection),
    > {
        self.spec_neighbor_one(p, MoveDirection::Up) + self.spec_neighbor_one(
            p,
            MoveDirection::Down,
        ) + self.spec_neighbor_one(p, MoveDirection::Left) + self.spec_neighbor_one(
            p,
            MoveDirection::Right,
        )
    }

    pub open spec fn spec_neighbor_one(self, p: UnboundedPosition, d: MoveDirection) -> Seq<
        (UnboundedPosition, MoveDirection),
    > {
        if self.spec_is_walkable(p.spec_step(d)) {
            seq![(p.spec_step(d), d)]
        } else {
            Seq::empty()
        }
    }

    /// The cardinal neighbours of a position that hold walkable recorded
    /// terrain.
    pub fn neighbors(&self, pos: UnboundedPosition) -> (r: Vec<(UnboundedPosition, MoveDirection)>)
        requires
            in_coord_range(pos),
        ensures
            r@ == self.spec_neighbors(pos),
    {
        let mut result: Vec<(UnboundedPosition, MoveDirection)> = Vec::new();
        let up = pos.move_in_direction(MoveDirection::Up);
        if self.is_walkable(up) {
            result.push((up, MoveDirection::Up));
        }
        let down = pos.move_in_direction(MoveDirection::Down);
        if self.is_walkable(down) {
            result.push((down, MoveDirection::Down));
        }
        let left = pos.move_in_direction(MoveDirection::Left);
        if self.is_walkable(left) {
            result.push((left, MoveDirection::Left));
        }
        let right = pos.move_in_direction(MoveDirection::Right);
        if self.is_walkable(right) {
            result.push((right, MoveDirection::Right));
        }
        proof {
            assert(result@ =~= self.spec_neighbors(pos));
        }
        result
    }

    /// Every listed neighbour is walkable, and every walkable neighbour
    /// is listed.
    pub proof fn lemma_neighbors_exact(self, p: UnboundedPosition)
        ensures
            forall|k: int|
                0 <= k < self.spec_neighbors(p).len() ==> {
                    let (q, d) = #[trigger] self.spec_neighbors(p)[k];
                    self.spec_is_walkable(q) && q == p.spec_step(d)
                },
            forall|d: MoveDirection|
                self.spec_is_walkable(#[trigger] p.spec_step(d)) ==> exists|k: int|
                    0 <= k < self.spec_neighbors(p).len() && self.spec_neighbors(p)[k] == (
                    p.spec_step(d),
                    d,
                    ),
    {
        let s = self.spec_neighbors(p);
        assert forall|d: MoveDirection|
            self.spec_is_walkable(#[trigger] p.spec_step(d)) implies exists|k: int|
            0 <= k < s.len() && s[k] == (p.spec_step(d), d) by {
            let pair = (p.spec_step(d), d);
            match d {
                MoveDirection::Up => {
                    assert(s[0] == pair);
                },
                MoveDirection::Down => {
                    let k = self.spec_neighbor_one(p, MoveDirection::Up).len() as int;
                    assert(s[k] == pair);
                },
                MoveDirection::Left => {
                    let k = self.spec_neighbor_one(p, MoveDirection::Up).len()
                        + self.spec_neighbor_one(p, MoveDirection::Down).len();
                    assert(s[k as int] == pair);
                },
                MoveDirection::Right => {
                    let k = self.spec_neighbor_one(p, MoveDirection::Up).len()
                        + self.spec_neighbor_one(p, MoveDirection::Down).len()
                        + self.spec_neighbor_one(p, MoveDirection::Left).len();
                    assert(s[k as int] == pair);
                },
            }
        }
    }

    /// The inclusive min/max row and column observed so far, or `None`
    /// where nothing has been written yet.
    pub fn get_bounds(&self) -> (r: Option<(isize, isize, isize, isize)>)
        ensures
            r is None <==> self.spec_len() == 0,
            r is Some ==> {
                let (min_row, max_row, min_col, max_col) = r->0;
                &&& forall|q: UnboundedPosition|
                    #[trigger] self.spec_contains(q) ==> min_row <= q.row && q.row <= max_row
                        && min_col <= q.col && q.col <= max_col
                &&& exists|q: UnboundedPosition| #[trigger] self.spec_contains(q) && q.row == min_row
                &&& exists|q: UnboundedPosition| #[trigger] self.spec_contains(q) && q.row == max_row
                &&& exists|q: UnboundedPosition| #[trigger] self.spec_contains(q) && q.col == min_col
                &&& exists|q: UnboundedPosition| #[trigger] self.spec_contains(q) && q.col == max_col
            },
    {
        proof {
            use_type_invariant(self);
        }
        if self.cells.len() == 0 {
            proof {
                assert forall|q: UnboundedPosition| !self.spec_contains(q) by {}
            }
            return None;
        }
        let first = self.cells[0].0;
        let mut min_row: isize = first.row;
        let mut max_row: isize = first.row;
        let mut min_col: isize = first.col;
        let mut max_col: isize = first.col;
        let mut i: usize = 1;
        proof {
            assert(self.spec_contains(first));
        }
        while i < self.cells.len()
            invariant
                self.wf(),
                1 <= i <= self.cells@.len(),
                forall|j: int|
                    0 <= j < i ==> {
                        let q = (#[trigger] self.cells@[j]).0;
                        min_row <= q.row && q.row <= max_row && min_col <= q.col && q.col <= max_col
                    },
                exists|q: UnboundedPosition| #[trigger] self.spec_contains(q) && q.row == min_row,
                exists|q: UnboundedPosition| #[trigger] self.spec_contains(q) && q.row == max_row,
                exists|q: UnboundedPosition| #[trigger] self.spec_contains(q) && q.col == min_col,
                exists|q: UnboundedPosition| #[trigger] self.spec_contains(q) && q.col == max_col,
            decreases self.cells@.len() - i,
        {
            let p = self.cells[i].0;
            proof {
                assert(self.spec_contains(p));
            }
            if p.row < min_row {
                min_row = p.row;
            }
            if p.row > max_row {
                max_row = p.row;
            }
            if p.col < min_col {
                min_col = p.col;
            }
            if p.col > max_col {
                max_col = p.col;
            }
            i = i + 1;
        }
        proof {
            assert forall|q: UnboundedPosition| #[trigger] self.spec_contains(q) implies min_row
                <= q.row && q.row <= max_row && min_col <= q.col && q.col <= max_col by {
                let k = choose|k: int|
                    0 <= k < self.cells@.len() && (#[trigger] self.cells@[k]).0 == q;
                assert(self.cells@[k].0 == q);
            }
        }
        Some((min_row, max_row, min_col, max_col))
    }

    /// Writes the robot's position and the eight surrounding cells from
    /// one sensor reading. Sensor data is authoritative: prior values are
    /// overwritten.
    pub fn update_from_sensors(&mut self, pos: UnboundedPosition, sensors: &SensorsStates)
        requires
            isize::MIN + 1 < pos.row < isize::MAX - 1,
            isize::MIN + 1 < pos.col < isize::MAX - 1,
        ensures
            final(self).spec_get(pos) == Cell::Robot,
            final(self).spec_get(pos.spec_offset(-1, 0)) == Cell::spec_from_sensor(sensors.up),
            final(self).spec_get(pos.spec_offset(1, 0)) == Cell::spec_from_sensor(sensors.down),
            final(self).spec_get(pos.spec_offset(0, -1)) == Cell::spec_from_sensor(sensors.left),
            final(self).spec_get(pos.spec_offset(0, 1)) == Cell::spec_from_sensor(sensors.right),
            final(self).spec_get(pos.spec_offset(-1, -1)) == Cell::spec_from_sensor(
                sensors.up_left,
            ),
            final(self).spec_get(pos.spec_offset(-1, 1)) == Cell::spec_from_sensor(
                sensors.up_right,
            ),
            final(self).spec_get(pos.spec_offset(1, -1)) == Cell::spec_from_sensor(
                sensors.down_left,
            ),
            final(self).spec_get(pos.spec_offset(1, 1)) == Cell::spec_from_sensor(
                sensors.down_right,
            ),
            forall|q: UnboundedPosition|
                !spec_in_sensor_footprint(pos, q) ==> final(self).spec_get(q) == old(
                    self,
                ).spec_get(q),
            forall|q: UnboundedPosition|
                !spec_in_sensor_footprint(pos, q) ==> final(self).spec_contains(q) == old(
                    self,
                ).spec_contains(q),
            final(self).spec_len() <= old(self).spec_len() + 9,
    {
        self.set(pos, Cell::Robot);
        self.set(UnboundedPosition::new(pos.row - 1, pos.col), Cell::from_sensor(sensors.up));
        self.set(UnboundedPosition::new(pos.row + 1, pos.col), Cell::from_sensor(sensors.down));
        self.set(UnboundedPosition::new(pos.row, pos.col - 1), Cell::from_sensor(sensors.left));
        self.set(UnboundedPosition::new(pos.row, pos.col + 1), Cell::from_sensor(sensors.right));
        self.set(
            UnboundedPosition::new(pos.row - 1, pos.col - 1),
            Cell::from_sensor(sensors.up_left),
        );
        self.set(
            UnboundedPosition::new(pos.row - 1, pos.col + 1),
            Cell::from_sensor(sensors.up_right),
        );
        self.set(
            UnboundedPosition::new(pos.row + 1, pos.col - 1),
            Cell::from_sensor(sensors.down_left),
        );
        self.set(
            UnboundedPosition::new(pos.row + 1, pos.col + 1),
            Cell::from_sensor(sensors.down_right),
        );
    }
}

/// `path` is a walk through the discovered maze from `start` to `end`:
/// every step lands on a cell recorded as walkable.
pub open spec fn discovered_route_ok(
    m: UnboundedMaze,
    start: UnboundedPosition,
    end: UnboundedPosition,
    path: Seq<MoveDirection>,
) -> bool
    decreases path.len(),
{
    if path.len() == 0 {
        start == end
    } else {
        m.spec_is_walkable(start.spec_step(path[0])) && discovered_route_ok(
            m,
            start.spec_step(path[0]),
            end,
            path.skip(1),
        )
    }
}

/// `path` is a discovered walk from `start` to `end` and no discovered
/// walk between them is strictly shorter.
pub open spec fn shortest_discovered_route(
    m: UnboundedMaze,
    start: UnboundedPosition,
    end: UnboundedPosition,
    path: Seq<MoveDirection>,
) -> bool {
    &&& discovered_route_ok(m, start, end, path)
    &&& forall|q: Seq<MoveDirection>|
        discovered_route_ok(m, start, end, q) ==> path.len() <= #[trigger] q.len()
}

/// Extending a discovered walk by one legal step keeps it a walk.
pub proof fn lemma_discovered_route_extend(
    m: UnboundedMaze,
    start: UnboundedPosition,
    mid: UnboundedPosition,
    d: MoveDirection,
    path: Seq<MoveDirection>,
)
    requires
        discovered_route_ok(m, start, mid, path),
        m.spec_is_walkable(mid.spec_step(d)),
    ensures
        discovered_route_ok(m, start, mid.spec_step(d), path.push(d)),
    decreases path.len(),
{
    if path.len() == 0 {
        assert(start == mid);
        assert(path.push(d)[0] == d);
        assert(path.push(d).skip(1) =~= Seq::<MoveDirection>::empty());
        assert(discovered_route_ok(
            m,
            start.spec_step(d),
            mid.spec_step(d),
            Seq::<MoveDirection>::empty(),
        ));
    } else {
        lemma_discovered_route_extend(m, start.spec_step(path[0]), mid, d, path.skip(1));
        assert(path.push(d)[0] == path[0]);
        assert(path.push(d).skip(1) =~= path.skip(1).push(d));
        assert(discovered_route_ok(m, start.spec_step(path[0]), mid.spec_step(d), path.skip(1).push(d)));
    }
}

/// A cardinal step always lands on a different position.
pub proof fn lemma_step_changes_unbounded(p: UnboundedPosition, d: MoveDirection)
    requires
        in_coord_range(p),
    ensures
        p.spec_step(d) != p,
{
    match d {
        MoveDirection::Up => {
            assert(p.spec_step(d).row == p.row - 1);
        },
        MoveDirection::Down => {
            assert(p.spec_step(d).row == p.row + 1);
        },
        MoveDirection::Left => {
            assert(p.spec_step(d).col == p.col - 1);
        },
        MoveDirection::Right => {
            assert(p.spec_step(d).col == p.col + 1);
        },
    }
}

/// Appending a position to a sequence adds exactly it to the set of the
/// sequence's elements.
pub proof fn lemma_to_set_push(s: Seq<UnboundedPosition>, p: UnboundedPosition)
    ensures
        s.push(p).to_set() =~= s.to_set().insert(p),
{
    broadcast use vstd::set::group_set_axioms;

    assert forall|a: UnboundedPosition| s.push(p).to_set().contains(a) implies s.to_set().insert(
        p,
    ).contains(a) by {
        let j = choose|j: int| 0 <= j < s.push(p).len() && s.push(p)[j] == a;
        if j < s.len() {
            assert(s[j] == a);
        }
    }
    assert forall|a: UnboundedPosition| s.to_set().insert(p).contains(a) implies s.push(
        p,
    ).to_set().contains(a) by {
        if a == p {
            assert(s.push(p)[s.len() as int] == a);
        } else {
            let j = choose|j: int| 0 <= j < s.len() && s[j] == a;
            assert(s.push(p)[j] == a);
        }
    }
}

/// The nine cells one sensor reading at `pos` writes: the position itself
/// and its eight-connected neighbourhood.
pub open spec fn spec_in_sensor_footprint(pos: UnboundedPosition, q: UnboundedPosition) -> bool {
    ||| q == pos
    ||| q == pos.spec_offset(-1, 0)
    ||| q == pos.spec_offset(1, 0)
    ||| q == pos.spec_offset(0, -1)
    ||| q == pos.spec_offset(0, 1)
    ||| q == pos.spec_offset(-1, -1)
    ||| q == pos.spec_offset(-1, 1)
    ||| q == pos.spec_offset(1, -1)
    ||| q == pos.spec_offset(1, 1)
}

/// Entries for keys other than the one rewritten are unaffected by a
/// remove-then-push rewrite of the store.
proof fn lemma_set_preserves_other(
    pre: UnboundedMaze,
    mid: UnboundedMaze,
    post: UnboundedMaze,
    pos: UnboundedPosition,
    cell: Cell,
    q: UnboundedPosition,
    found: Option<usize>,
)
    requires
        q != pos,
        pre.wf(),
        found is Some ==> {
            &&& found->0 < pre.cells@.len()
            &&& pre.cells@[found->0 as int].0 == pos
            &&& mid.cells@ == pre.cells@.remove(found->0 as int)
        },
        found is None ==> mid.cells@ == pre.cells@ && !pre.spec_contains(pos),
        post.cells@ == mid.cells@.push((pos, cell)),
    ensures
        post.spec_get(q) == pre.spec_get(q),
        post.spec_contains(q) == pre.spec_contains(q),
{
    let n = mid.cells@.len() as int;
    if pre.spec_contains(q) {
        let k = choose|k: int| 0 <= k < pre.cells@.len() && (#[trigger] pre.cells@[k]).0 == q;
        // the same entry survives in the rewritten store
        let k2 = match found {
            Some(i) => if k < i as int {
                k
            } else {
                k - 1
            },
            None => k,
        };
        assert(post.cells@[k2] == pre.cells@[k]);
        assert(post.spec_contains(q));
        let kc = choose|kc: int| 0 <= kc < post.cells@.len() && (#[trigger] post.cells@[kc]).0 == q;
        assert(kc != n);
        // map the chosen post witness back to a pre entry with the same value
        let kb = match found {
            Some(i) => if kc < i as int {
                kc
            } else {
                kc + 1
            },
            None => kc,
        };
        assert(pre.cells@[kb].0 == q && pre.cells@[kb].1 == post.cells@[kc].1);
        assert(kb == k);
    } else {
        if post.spec_contains(q) {
            let kc = choose|kc: int|
                0 <= kc < post.cells@.len() && (#[trigger] post.cells@[kc]).0 == q;
            assert(kc != n);
            match found {
                Some(i) => {
                    if kc < i as int {
                        assert(pre.cells@[kc].0 == q);
                    } else {
                        assert(pre.cells@[kc + 1].0 == q);
                    }
                },
                None => {
                    assert(pre.cells@[kc].0 == q);
                },
            }
        }
    }
}

impl Default for UnboundedMaze {
    /// An empty maze, as [`UnboundedMaze::new`] builds it.
    fn default() -> (r: Self)
        ensures
            forall|q: UnboundedPosition| !r.spec_contains(q),
            forall|q: UnboundedPosition| r.spec_get(q) == Cell::Unknown,
            r.spec_len() == 0,
    {
        Self::new()
    }
}

} // verus!
