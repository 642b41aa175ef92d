//! The error taxonomy of the solvers. Every failure a solve can run into is
//! one of these variants; the embedding program decides how to report them.

use vstd::prelude::*;
use crate::types::MoveDirection;

verus! {

/// A fatal condition raised by grid construction, planning or execution.
#[derive(Debug, Clone, Copy, PartialEq, Eq, Structural)]
pub enum SolverError {
    /// Malformed grid dimensions or a flattened length mismatch.
    Shape,
    /// The robot or the target cell is missing from a bounded grid.
    NotFound,
    /// No path exists from start to target.
    Unreachable,
    /// A remote move reported failure; carries the failing step (1-based)
    /// and the direction that was attempted.
    MoveFailure { step: usize, direction: MoveDirection },
    /// An exploration algorithm found all four cardinal directions blocked.
    Surrounded,
    /// The exploration step ceiling was exceeded (possible infinite loop).
    LoopGuard,
    /// The sensor stream ended while a reading was still needed.
    ChannelClosed,
}

} // verus!
