//! Row/column positions inside a bounded grid, with linear-index
//! conversion and bounded cardinal movement.

use vstd::prelude::*;
use crate::types::MoveDirection;

verus! {

/// An unsigned position, valid only within a grid's declared bounds.
#[derive(Debug, Clone, Copy, PartialEq, Eq, Hash, Structural)]
pub struct Position {
    pub row: usize,
    pub col: usize,
}

/// `|a - b|` over mathematical integers.
pub open spec fn spec_abs_diff(a: int, b: int) -> int {
    if a >= b {
        a - b
    } else {
        b - a
    }
}

impl Position {
    pub fn new(row: usize, col: usize) -> (r: Self)
        ensures
            r == (Position { row, col }),
    {
        Self { row, col }
    }

    /// The linear index of this position in a row-major grid of the given
    /// width.
    pub open spec fn spec_to_index(self, width: int) -> int {
        self.row * width + self.col
    }

    /// Converts to a linear index (`row * width + col`).
    pub fn to_index(self, width: usize) -> (r: usize)
        requires
            self.row * width + self.col <= usize::MAX,
        ensures
            r == self.spec_to_index(width as int),
    {
        self.row * width + self.col
    }

    /// Recovers the position a linear index denotes in a row-major grid of
    /// the given width.
    pub fn from_index(index: usize, width: usize) -> (r: Self)
        requires
            width > 0,
        ensures
            r.row == index as int / width as int,
            r.col == index as int % width as int,
    {
        Self::new(index / width, index % width)
    }

    /// The Manhattan (taxicab) distance between two positions.
    pub open spec fn spec_manhattan(self, other: Position) -> int {
        spec_abs_diff(self.row as int, other.row as int) + spec_abs_diff(
            self.col as int,
            other.col as int,
        )
    }

    /// Computes the Manhattan distance between two positions.
    pub fn manhattan_distance(self, other: Self) -> (r: usize)
        requires
            self.spec_manhattan(other) <= usize::MAX,
        ensures
            r == self.spec_manhattan(other),
    {
        let dr = if self.row >= other.row {
            self.row - other.row
        } else {
            other.row - self.row
        };
        let dc = if self.col >= other.col {
            self.col - other.col
        } else {
            other.col - self.col
        };
        dr + dc
    }

    /// The cell one step away in the given direction, with no bounds
    /// check. Meaningful only where [`Self::spec_dir_ok`] holds.
    pub open spec fn spec_step(self, direction: MoveDirection) -> Position {
        match direction {
            MoveDirection::Up => Position { row: (self.row - 1) as usize, col: self.col },
            MoveDirection::Down => Position { row: (self.row + 1) as usize, col: self.col },
            MoveDirection::Left => Position { row: self.row, col: (self.col - 1) as usize },
            MoveDirection::Right => Position { row: self.row, col: (self.col + 1) as usize },
        }
    }

    /// Whether a step in the given direction stays inside an
    /// `height x width` grid.
    pub open spec fn spec_dir_ok(self, direction: MoveDirection, height: int, width: int) -> bool {
        match direction {
            MoveDirection::Up => self.row > 0,
            MoveDirection::Down => self.row + 1 < height,
            MoveDirection::Left => self.col > 0,
            MoveDirection::Right => self.col + 1 < width,
        }
    }

    /// The in-bounds destination of a step, or `None` where the step would
    /// leave the grid.
    pub open spec fn spec_move(self, direction: MoveDirection, height: int, width: int) -> Option<
        Position,
    > {
        if self.spec_dir_ok(direction, height, width) {
            Some(self.spec_step(direction))
        } else {
            None
        }
    }

    /// Moves one step in the given direction inside a grid of the given
    /// `(height, width)` bounds, or returns `None` where the step would
    /// leave the grid.
    pub fn move_in_direction(self, direction: MoveDirection, bounds: (usize, usize)) -> (r: Option<
        Self,
    >)
        ensures
            r == self.spec_move(direction, bounds.0 as int, bounds.1 as int),
    {
        let (height, width) = bounds;
        match direction {
            MoveDirection::Up if self.row > 0 => Some(Self::new(self.row - 1, self.col)),
            MoveDirection::Down if height > 0 && self.row < height - 1 => Some(
                Self::new(self.row + 1, self.col),
            ),
            MoveDirection::Left if self.col > 0 => Some(Self::new(self.row, self.col - 1)),
            MoveDirection::Right if width > 0 && self.col < width - 1 => Some(
                Self::new(self.row, self.col + 1),
            ),
            _ => None,
        }
    }

    /// The in-bounds cardinal neighbours of a position, in the fixed order
    /// up, down, left, right, each paired with the direction reaching it.
    pub open spec fn spec_neighbors(self, height: int, width: int) -> Seq<(Position, MoveDirection)> {
        let up = if self.spec_dir_ok(MoveDirection::Up, height, width) {
            seq![(self.spec_step(MoveDirection::Up), MoveDirection::Up)]
        } else {
            Seq::empty()
        };
        let down = if self.spec_dir_ok(MoveDirection::Down, height, width) {
            seq![(self.spec_step(MoveDirection::Down), MoveDirection::Down)]
        } else {
            Seq::empty()
        };
        let left = if self.spec_dir_ok(MoveDirection::Left, height, width) {
            seq![(self.spec_step(MoveDirection::Left), MoveDirection::Left)]
        } else {
            Seq::empty()
        };
        let right = if self.spec_dir_ok(MoveDirection::Right, height, width) {
            seq![(self.spec_step(MoveDirection::Right), MoveDirection::Right)]
        } else {
            Seq::empty()
        };
        up + down + left + right
    }

    /// The in-bounds cardinal neighbours of this position, paired with the
    /// directions that reach them.
    pub fn neighbors(self, bounds: (usize, usize)) -> (r: Vec<(Self, MoveDirection)>)
        ensures
            r@ == self.spec_neighbors(bounds.0 as int, bounds.1 as int),
    {
        let mut result: Vec<(Self, MoveDirection)> = Vec::new();
        if let Some(p) = self.move_in_direction(MoveDirection::Up, bounds) {
            result.push((p, MoveDirection::Up));
        }
        if let Some(p) = self.move_in_direction(MoveDirection::Down, bounds) {
            result.push((p, MoveDirection::Down));
        }
        if let Some(p) = self.move_in_direction(MoveDirection::Left, bounds) {
            result.push((p, MoveDirection::Left));
        }
        if let Some(p) = self.move_in_direction(MoveDirection::Right, bounds) {
            result.push((p, MoveDirection::Right));
        }
        proof {
            assert(result@ =~= self.spec_neighbors(bounds.0 as int, bounds.1 as int));
        }
        result
    }
}

/// A legal step always lands on a different position.
pub proof fn lemma_step_changes(p: Position, d: MoveDirection, height: int, width: int)
    requires
        p.spec_dir_ok(d, height, width),
        height <= usize::MAX,
        width <= usize::MAX,
    ensures
        p.spec_step(d) != p,
{
    match d {
        MoveDirection::Up => {
            assert(p.spec_step(d).row == p.row - 1);
        },
        MoveDirection::Down => {
            assert(p.spec_step(d).row == p.row + 1);
        },
        MoveDirection::Left => {
            assert(p.spec_step(d).col == p.col - 1);
        },
        MoveDirection::Right => {
            assert(p.spec_step(d).col == p.col + 1);
        },
    }
}

/// Index round-trip: converting a valid position to its linear index and
/// back recovers the same position. This is the content of
/// `Position::from_index(Position::to_index(p, w), w) == p` for every
/// position whose column is inside a width-`w` grid.
pub proof fn lemma_index_round_trip(p: Position, width: int)
    requires
        0 < width,
        p.col < width,
    ensures
        p.spec_to_index(width) / width == p.row as int,
        p.spec_to_index(width) % width == p.col as int,
{
    let r = p.row as int;
    let c = p.col as int;
    assert((r * width + c) / width == r && (r * width + c) % width == c) by (nonlinear_arith)
        requires
            0 < width,
            0 <= c < width,
            0 <= r,
    ;
}

} // verus!
