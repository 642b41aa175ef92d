//! The dense, fully-known rectangular maze used for planning.

use vstd::prelude::*;
use crate::error::SolverError;
use crate::maze::cell::Cell;
use crate::maze::position::Position;
use crate::types::MoveDirection;

verus! {

/// The index of the first occurrence of `c` in `cells`, or the length
/// of `cells` where it does not occur.
pub open spec fn spec_first_match(cells: Seq<Cell>, c: Cell) -> int
    decreases cells.len(),
{
    if cells.len() == 0 {
        0
    } else if cells[0] == c {
        0
    } else {
        1 + spec_first_match(cells.skip(1), c)
    }
}

/// What the first-occurrence index means: it is in range exactly when
/// the cell occurs, it points at the cell, and nothing earlier matches.
pub proof fn lemma_first_match_props(cells: Seq<Cell>, c: Cell)
    ensures
        0 <= spec_first_match(cells, c) <= cells.len(),
        spec_first_match(cells, c) < cells.len() ==> cells[spec_first_match(cells, c)] == c,
        forall|j: int| 0 <= j < spec_first_match(cells, c) ==> cells[j] != c,
    decreases cells.len(),
{
    if cells.len() > 0 && cells[0] != c {
        lemma_first_match_props(cells.skip(1), c);
        assert forall|j: int| 0 <= j < spec_first_match(cells, c) implies cells[j] != c by {
            if j > 0 {
                assert(cells.skip(1)[j - 1] == cells[j]);
            }
        }
    }
}

/// The first occurrence is pinned by a matching cell with no earlier
/// match.
pub proof fn lemma_first_match_is(cells: Seq<Cell>, c: Cell, i: int)
    requires
        0 <= i < cells.len(),
        cells[i] == c,
        forall|j: int| 0 <= j < i ==> cells[j] != c,
    ensures
        spec_first_match(cells, c) == i,
{
    lemma_first_match_props(cells, c);
    let f = spec_first_match(cells, c);
    if f < i {
        assert(cells[f] != c);
    }
}

/// A dense, rectangular, fully-known maze: a row-major sequence of cells
/// together with its height and width. Immutable after construction.
#[derive(Debug)]
pub struct Maze {
    grid: Vec<Cell>,
    width: usize,
    height: usize,
}

impl Maze {
    /// Well-formedness: the cell storage matches the declared dimensions,
    /// and the dimensions fit the one-byte shape encoding used by the
    /// transport.
    #[verifier::type_invariant]
    pub closed spec fn wf(self) -> bool {
        &&& self.grid@.len() == self.height * self.width
        &&& self.height <= 255
        &&& self.width <= 255
    }

    pub closed spec fn spec_height(self) -> int {
        self.height as int
    }

    pub closed spec fn spec_width(self) -> int {
        self.width as int
    }

    pub closed spec fn spec_cells(self) -> Seq<Cell> {
        self.grid@
    }

    /// The number of cells of the maze.
    pub open spec fn spec_size(self) -> int {
        self.spec_height() * self.spec_width()
    }

    /// What well-formedness gives every constructed maze.
    pub proof fn lemma_wf(self)
        requires
            self.wf(),
        ensures
            self.spec_cells().len() == self.spec_size(),
            0 <= self.spec_height() <= 255,
            0 <= self.spec_width() <= 255,
            0 <= self.spec_size() <= 255 * 255,
    {
        assert(0 <= self.spec_size() <= 255 * 255) by (nonlinear_arith)
            requires
                0 <= self.spec_height() <= 255,
                0 <= self.spec_width() <= 255,
        ;
    }

    pub open spec fn spec_in_bounds(self, p: Position) -> bool {
        p.row < self.spec_height() && p.col < self.spec_width()
    }

    /// The linear index of an in-bounds position.
    pub open spec fn spec_index_of(self, p: Position) -> int {
        p.spec_to_index(self.spec_width())
    }

    pub open spec fn spec_cell(self, p: Position) -> Cell {
        self.spec_cells()[self.spec_index_of(p)]
    }

    pub open spec fn spec_is_walkable(self, p: Position) -> bool {
        self.spec_in_bounds(p) && self.spec_cell(p).spec_is_walkable()
    }

    /// An in-bounds position has a linear index inside the cell storage.
    pub proof fn lemma_index_in_range(self, p: Position)
        requires
            self.spec_in_bounds(p),
        ensures
            0 <= self.spec_index_of(p) < self.spec_size(),
    {
        let h = self.spec_height();
        let w = self.spec_width();
        assert(0 <= p.row * w + p.col < h * w) by (nonlinear_arith)
            requires
                0 <= p.row < h,
                0 <= p.col < w,
        ;
    }

    /// Two distinct in-bounds positions have distinct linear indices.
    pub proof fn lemma_index_injective(self, p: Position, q: Position)
        requires
            self.spec_in_bounds(p),
            self.spec_in_bounds(q),
            self.spec_index_of(p) == self.spec_index_of(q),
        ensures
            p == q,
    {
        let w = self.spec_width();
        assert(p.row == q.row && p.col == q.col) by (nonlinear_arith)
            requires
                0 <= p.col < w,
                0 <= q.col < w,
                0 <= p.row,
                0 <= q.row,
                p.row * w + p.col == q.row * w + q.col,
        ;
    }

    /// Builds a maze from a flattened sequence of single-letter cell codes
    /// and a two-element `[height, width]` shape. Fails with a shape error
    /// unless the shape has exactly two elements and the flattened length
    /// matches `height * width`.
    pub fn from_flattened(flattened: Vec<String>, shape: Vec<u8>) -> (r: Result<Self, SolverError>)
        ensures
            shape@.len() != 2 ==> r == Err::<Maze, SolverError>(SolverError::Shape),
            shape@.len() == 2 && flattened@.len() != shape@[0] * shape@[1] ==> r == Err::<
                Maze,
                SolverError,
            >(SolverError::Shape),
            shape@.len() == 2 && flattened@.len() == shape@[0] * shape@[1] ==> {
                &&& r is Ok
                &&& r->Ok_0.wf()
                &&& r->Ok_0.spec_height() == shape@[0]
                &&& r->Ok_0.spec_width() == shape@[1]
                &&& r->Ok_0.spec_cells().len() == flattened@.len()
                &&& forall|i: int|
                    0 <= i < flattened@.len() ==> r->Ok_0.spec_cells()[i] == Cell::spec_from_code(
                        flattened@[i]@,
                    )
            },
    {
        if shape.len() != 2 {
            return Err(SolverError::Shape);
        }
        let height = shape[0] as usize;
        let width = shape[1] as usize;
        proof {
            assert(width * height <= 255 * 255) by (nonlinear_arith)
                requires
                    width <= 255,
                    height <= 255,
            ;
        }
        let expected = width * height;
        if flattened.len() != expected {
            return Err(SolverError::Shape);
        }
        let mut grid: Vec<Cell> = Vec::new();
        let mut i: usize = 0;
        while i < flattened.len()
            invariant
                i <= flattened@.len(),
                grid@.len() == i,
                forall|j: int|
                    0 <= j < i ==> grid@[j] == Cell::spec_from_code(flattened@[j]@),
            decreases flattened@.len() - i,
        {
            grid.push(Cell::from_str(flattened[i].as_str()));
            i = i + 1;
        }
        Ok(Self { grid, width, height })
    }

    pub fn width(&self) -> (r: usize)
        ensures
            r == self.spec_width(),
    {
        self.width
    }

    pub fn height(&self) -> (r: usize)
        ensures
            r == self.spec_height(),
    {
        self.height
    }

    /// The `(height, width)` pair of the maze.
    pub fn bounds(&self) -> (r: (usize, usize))
        ensures
            r.0 == self.spec_height(),
            r.1 == self.spec_width(),
    {
        (self.height, self.width)
    }

    /// The cell at a position, or `None` where the position is out of
    /// bounds.
    pub fn get(&self, pos: Position) -> (r: Option<Cell>)
        ensures
            r == if self.spec_in_bounds(pos) {
                Some(self.spec_cell(pos))
            } else {
                None::<Cell>
            },
    {
        proof {
            use_type_invariant(self);
        }
        if pos.row < self.height && pos.col < self.width {
            proof {
                self.lemma_wf();
                self.lemma_index_in_range(pos);
            }
            Some(self.grid[pos.to_index(self.width)])
        } else {
            None
        }
    }

    /// Whether a position is in bounds and holds a walkable cell.
    pub fn is_walkable(&self, pos: Position) -> (r: bool)
        ensures
            r == self.spec_is_walkable(pos),
    {
        match self.get(pos) {
            Some(cell) => cell.is_walkable(),
            None => false,
        }
    }

    /// Builds a maze directly from parsed cells; internal to the crate.
    pub(crate) fn from_cells(grid: Vec<Cell>, height: usize, width: usize) -> (r: Self)
        requires
            grid@.len() == height * width,
            height <= 255,
            width <= 255,
        ensures
            r.wf(),
            r.spec_height() == height,
            r.spec_width() == width,
            r.spec_cells() == grid@,
    {
        Self { grid, width, height }
    }

    /// The position of the first cell in row-major order holding `c`, or
    /// `None` where none does.
    pub open spec fn spec_find(self, c: Cell) -> Option<Position> {
        let i = spec_first_match(self.spec_cells(), c);
        if i < self.spec_cells().len() {
            Some(self.spec_pos_of(i))
        } else {
            None
        }
    }

    /// Scans for the unique `Robot` cell; returns the position of the
    /// first one in row-major order, or `None` where the grid has none.
    pub fn find_robot(&self) -> (r: Option<Position>)
        ensures
            r == self.spec_find(Cell::Robot),
            r is Some ==> {
                &&& self.spec_in_bounds(r->0)
                &&& self.spec_cell(r->0) == Cell::Robot
                &&& forall|j: int|
                    0 <= j < self.spec_index_of(r->0) ==> self.spec_cells()[j] != Cell::Robot
            },
            r is None ==> forall|j: int|
                0 <= j < self.spec_cells().len() ==> self.spec_cells()[j] != Cell::Robot,
    {
        self.find_cell(Cell::Robot)
    }

    /// Scans for the unique `Target` cell; returns the position of the
    /// first one in row-major order, or `None` where the grid has none.
    pub fn find_target(&self) -> (r: Option<Position>)
        ensures
            r == self.spec_find(Cell::Target),
            r is Some ==> {
                &&& self.spec_in_bounds(r->0)
                &&& self.spec_cell(r->0) == Cell::Target
                &&& forall|j: int|
                    0 <= j < self.spec_index_of(r->0) ==> self.spec_cells()[j] != Cell::Target
            },
            r is None ==> forall|j: int|
                0 <= j < self.spec_cells().len() ==> self.spec_cells()[j] != Cell::Target,
    {
        self.find_cell(Cell::Target)
    }

    /// Row-major scan for the first cell equal to `wanted`.
    fn find_cell(&self, wanted: Cell) -> (r: Option<Position>)
        ensures
            r == self.spec_find(wanted),
            r is Some ==> {
                &&& self.spec_in_bounds(r->0)
                &&& self.spec_cell(r->0) == wanted
                &&& forall|j: int|
                    0 <= j < self.spec_index_of(r->0) ==> self.spec_cells()[j] != wanted
            },
            r is None ==> forall|j: int|
                0 <= j < self.spec_cells().len() ==> self.spec_cells()[j] != wanted,
    {
        proof {
            use_type_invariant(self);
        }
        let mut i: usize = 0;
        while i < self.grid.len()
            invariant
                self.wf(),
                i <= self.spec_cells().len(),
                forall|j: int| 0 <= j < i ==> self.spec_cells()[j] != wanted,
            decreases self.spec_cells().len() - i,
        {
            if self.grid[i] == wanted {
                proof {
                    assert(self.width > 0 && self.height > 0) by (nonlinear_arith)
                        requires
                            self.spec_cells().len() == self.spec_height() * self.spec_width(),
                            i < self.spec_cells().len(),
                            0 <= self.spec_height(),
                            0 <= self.spec_width(),
                    ;
                }
                let p = Position::from_index(i, self.width);
                proof {
                    let w = self.spec_width();
                    let h = self.spec_height();
                    assert(p.row < h && p.col < w && p.row * w + p.col == i) by (nonlinear_arith)
                        requires
                            0 < w,
                            0 <= (i as int) < h * w,
                            p.row == i as int / w,
                            p.col == i as int % w,
                    ;
                    lemma_first_match_is(self.spec_cells(), wanted, i as int);
                    self.lemma_pos_of_index(i as int);
                }
                return Some(p);
            }
            i = i + 1;
        }
        proof {
            lemma_first_match_props(self.spec_cells(), wanted);
        }
        None
    }

    /// The position a linear index denotes.
    pub open spec fn spec_pos_of(self, i: int) -> Position {
        Position {
            row: (i / self.spec_width()) as usize,
            col: (i % self.spec_width()) as usize,
        }
    }

    /// Every index inside the cell storage denotes an in-bounds position,
    /// and indexing is inverse to it.
    pub proof fn lemma_pos_of_index(self, i: int)
        requires
            0 <= i < self.spec_size(),
        ensures
            self.spec_in_bounds(self.spec_pos_of(i)),
            self.spec_index_of(self.spec_pos_of(i)) == i,
    {
        let h = self.spec_height();
        let w = self.spec_width();
        assert(0 < w && 0 <= i / w < h && 0 <= i % w < w && (i / w) * w + (i % w) == i)
            by (nonlinear_arith)
            requires
                0 <= i < h * w,
                0 <= h,
                0 <= w,
        ;
    }

    /// An in-bounds position is recovered from its own linear index.
    pub proof fn lemma_pos_of_inverse(self, p: Position)
        requires
            self.spec_in_bounds(p),
        ensures
            self.spec_pos_of(self.spec_index_of(p)) == p,
    {
        crate::maze::position::lemma_index_round_trip(p, self.spec_width());
    }

    /// Whether the robot can legally move from `p` one step in direction
    /// `d`: the destination is in bounds and walkable.
    pub open spec fn spec_move_ok(self, p: Position, d: MoveDirection) -> bool {
        p.spec_dir_ok(d, self.spec_height(), self.spec_width()) && self.spec_is_walkable(
            p.spec_step(d),
        )
    }

    /// The walkable cardinal neighbours of a position, in the fixed order
    /// up, down, left, right, each paired with the direction reaching it.
    pub open spec fn spec_neighbors(self, p: Position) -> Seq<(Position, MoveDirection)> {
        self.spec_neighbor_one(p, MoveDirection::Up) + self.spec_neighbor_one(p, MoveDirection::Down)
            + self.spec_neighbor_one(p, MoveDirection::Left) + self.spec_neighbor_one(
            p,
            MoveDirection::Right,
        )
    }

    pub open spec fn spec_neighbor_one(self, p: Position, d: MoveDirection) -> Seq<
        (Position, MoveDirection),
    > {
        if self.spec_move_ok(p, d) {
            seq![(p.spec_step(d), d)]
        } else {
            Seq::empty()
        }
    }

    /// The up-to-four cardinally adjacent positions that are in bounds and
    /// walkable, paired with the directions that reach them.
    pub fn neighbors(&self, pos: Position) -> (r: Vec<(Position, MoveDirection)>)
        ensures
            r@ == self.spec_neighbors(pos),
    {
        let bounds = self.bounds();
        let mut result: Vec<(Position, MoveDirection)> = Vec::new();
        if let Some(p) = pos.move_in_direction(MoveDirection::Up, bounds) {
            if self.is_walkable(p) {
                result.push((p, MoveDirection::Up));
            }
        }
        if let Some(p) = pos.move_in_direction(MoveDirection::Down, bounds) {
            if self.is_walkable(p) {
                result.push((p, MoveDirection::Down));
            }
        }
        if let Some(p) = pos.move_in_direction(MoveDirection::Left, bounds) {
            if self.is_walkable(p) {
                result.push((p, MoveDirection::Left));
            }
        }
        if let Some(p) = pos.move_in_direction(MoveDirection::Right, bounds) {
            if self.is_walkable(p) {
                result.push((p, MoveDirection::Right));
            }
        }
        proof {
            assert(result@ =~= self.spec_neighbors(pos));
        }
        result
    }

    /// Every listed neighbour is a legal move, and every legal move is
    /// listed.
    pub proof fn lemma_neighbors_exact(self, p: Position)
        ensures
            forall|k: int|
                0 <= k < self.spec_neighbors(p).len() ==> {
                    let (q, d) = #[trigger] self.spec_neighbors(p)[k];
                    self.spec_move_ok(p, d) && q == p.spec_step(d)
                },
            forall|d: MoveDirection|
                #[trigger] self.spec_move_ok(p, d) ==> exists|k: int|
                    0 <= k < self.spec_neighbors(p).len() && self.spec_neighbors(p)[k] == (
                    p.spec_step(d),
                    d,
                    ),
    {
        let s = self.spec_neighbors(p);
        assert forall|d: MoveDirection| #[trigger] self.spec_move_ok(p, d) implies exists|k: int|
            0 <= k < s.len() && s[k] == (p.spec_step(d), d) by {
            let pair = (p.spec_step(d), d);
            match d {
                MoveDirection::Up => {
                    assert(s[0] == pair);
                },
                MoveDirection::Down => {
                    let k = self.spec_neighbor_one(p, MoveDirection::Up).len() as int;
                    assert(s[k] == pair);
                },
                MoveDirection::Left => {
                    let k = self.spec_neighbor_one(p, MoveDirection::Up).len()
                        + self.spec_neighbor_one(p, MoveDirection::Down).len();
                    assert(s[k as int] == pair);
                },
                MoveDirection::Right => {
                    let k = self.spec_neighbor_one(p, MoveDirection::Up).len()
                        + self.spec_neighbor_one(p, MoveDirection::Down).len()
                        + self.spec_neighbor_one(p, MoveDirection::Left).len();
                    assert(s[k as int] == pair);
                },
            }
        }
    }
}

} // verus!
