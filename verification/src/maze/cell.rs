//! The terrain state of one grid cell.

use vstd::prelude::*;
use crate::types::SensorState;

verus! {

/// Terrain state of a cell. `Unknown` appears only in sparse storage and
/// means "not yet observed".
#[derive(Debug, Clone, Copy, PartialEq, Eq, Structural)]
pub enum Cell {
    Free,
    Blocked,
    Target,
    Robot,
    Unknown,
}

impl Cell {
    /// The cell a single-letter code denotes: `f`, `b`, `t` and `r` name
    /// the four known terrain states; any other code means `Unknown`.
    pub open spec fn spec_from_code(s: Seq<char>) -> Cell {
        if s.len() == 1 {
            if s[0] == 'f' {
                Cell::Free
            } else if s[0] == 'b' {
                Cell::Blocked
            } else if s[0] == 't' {
                Cell::Target
            } else if s[0] == 'r' {
                Cell::Robot
            } else {
                Cell::Unknown
            }
        } else {
            Cell::Unknown
        }
    }

    /// Parses a single-letter cell code.
    pub fn from_str(s: &str) -> (r: Self)
        ensures
            r == Self::spec_from_code(s@),
    {
        if s.unicode_len() != 1 {
            Cell::Unknown
        } else {
            match s.get_char(0) {
                'f' => Cell::Free,
                'b' => Cell::Blocked,
                't' => Cell::Target,
                'r' => Cell::Robot,
                _ => Cell::Unknown,
            }
        }
    }

    /// Whether the robot may occupy a cell in this state.
    pub open spec fn spec_is_walkable(self) -> bool {
        self is Free || self is Target || self is Robot
    }

    /// Whether the robot may occupy a cell in this state.
    pub fn is_walkable(self) -> (r: bool)
        ensures
            r == self.spec_is_walkable(),
    {
        matches!(self, Self::Free | Self::Target | Self::Robot)
    }

    /// The cell state a sensor channel reports.
    pub open spec fn spec_from_sensor(state: SensorState) -> Cell {
        match state {
            SensorState::Free => Cell::Free,
            SensorState::Blocked => Cell::Blocked,
            SensorState::Target => Cell::Target,
        }
    }

    /// The cell state a sensor channel reports.
    pub fn from_sensor(state: SensorState) -> (r: Self)
        ensures
            r == Self::spec_from_sensor(state),
    {
        match state {
            SensorState::Free => Cell::Free,
            SensorState::Blocked => Cell::Blocked,
            SensorState::Target => Cell::Target,
        }
    }
}

} // verus!
