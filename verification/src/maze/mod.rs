//! Grid models: terrain cells, bounded positions and the two maze
//! representations (dense bounded, sparse unbounded).

pub mod bounded;
pub mod cell;
pub mod position;
pub mod unbounded;

pub use bounded::Maze;
pub use bounded::Maze as BoundedMaze;
pub use cell::Cell;
pub use position::Position;
pub use unbounded::UnboundedMaze;
pub use unbounded::UnboundedPosition;
