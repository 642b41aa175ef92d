//! Plain value types shared between the solvers and the transport: move
//! directions and the eight-channel sensor readings the robot receives.

use vstd::prelude::*;

verus! {

/// One of the four cardinal moves the robot can make.
#[derive(Debug, Clone, Copy, PartialEq, Eq, Structural)]
pub enum MoveDirection {
    Up,
    Down,
    Left,
    Right,
}

impl MoveDirection {
    /// The wire name of this direction, as the transport expects it.
    pub fn as_str(&self) -> (r: &'static str)
        ensures
            r@ == self.spec_str(),
    {
        proof {
            reveal_strlit("up");
            reveal_strlit("down");
            reveal_strlit("left");
            reveal_strlit("right");
        }
        match self {
            Self::Up => "up",
            Self::Down => "down",
            Self::Left => "left",
            Self::Right => "right",
        }
    }

    pub open spec fn spec_str(self) -> Seq<char> {
        match self {
            Self::Up => "up"@,
            Self::Down => "down"@,
            Self::Left => "left"@,
            Self::Right => "right"@,
        }
    }
}

/// What one sensor channel reports about the adjacent cell.
#[derive(Debug, Clone, Copy, PartialEq, Eq, Structural)]
pub enum SensorState {
    Blocked,
    Target,
    Free,
}

/// One full sensor reading: the four cardinal and four diagonal channels,
/// anchored at the robot's current position.
#[derive(Debug, Clone, Copy, PartialEq, Eq, Structural)]
pub struct SensorsStates {
    pub up: SensorState,
    pub down: SensorState,
    pub left: SensorState,
    pub right: SensorState,
    pub up_left: SensorState,
    pub up_right: SensorState,
    pub down_left: SensorState,
    pub down_right: SensorState,
}

impl SensorsStates {
    /// The channel that looks in the given cardinal direction.
    pub fn cardinal(&self, direction: MoveDirection) -> (r: SensorState)
        ensures
            r == self.spec_cardinal(direction),
    {
        match direction {
            MoveDirection::Up => self.up,
            MoveDirection::Down => self.down,
            MoveDirection::Left => self.left,
            MoveDirection::Right => self.right,
        }
    }

    pub open spec fn spec_cardinal(self, direction: MoveDirection) -> SensorState {
        match direction {
            MoveDirection::Up => self.up,
            MoveDirection::Down => self.down,
            MoveDirection::Left => self.left,
            MoveDirection::Right => self.right,
        }
    }
}

} // verus!
