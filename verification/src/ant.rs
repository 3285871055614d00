//! Ants: their color, their hex-grid heading, and their per-ant state.

use vstd::prelude::*;
use crate::instruction::TurnDir;

verus! {

/// The two colonies.
#[derive(Clone, Copy, Debug, PartialEq, Eq, Structural)]
pub enum AntColor {
    Red,
    Black,
}

impl AntColor {
    /// The opposing colony.
    pub open spec fn spec_other(self) -> AntColor {
        match self {
            AntColor::Red => AntColor::Black,
            AntColor::Black => AntColor::Red,
        }
    }

    /// The opposing colony.
    pub fn other(self) -> (r: AntColor)
        ensures
            r == self.spec_other(),
    {
        match self {
            AntColor::Red => AntColor::Black,
            AntColor::Black => AntColor::Red,
        }
    }
}

/// A hex direction, clockwise from East.  `Right` is East, `DownRight`
/// South-East, and so on around to `UpRight` (North-East).
#[derive(Clone, Copy, Debug, PartialEq, Eq, Structural)]
pub enum AntDirection {
    Right,
    DownRight,
    DownLeft,
    Left,
    UpLeft,
    UpRight,
}

impl AntDirection {
    /// The conventional encoding of this direction: 0 (East) through 5
    /// (North-East), clockwise.
    pub open spec fn index(self) -> int {
        match self {
            AntDirection::Right => 0,
            AntDirection::DownRight => 1,
            AntDirection::DownLeft => 2,
            AntDirection::Left => 3,
            AntDirection::UpLeft => 4,
            AntDirection::UpRight => 5,
        }
    }

    /// The direction encoded by `i`, for `i` in 0..6 (East = 0, clockwise).
    pub open spec fn spec_from_index(i: int) -> AntDirection {
        if i == 0 {
            AntDirection::Right
        } else if i == 1 {
            AntDirection::DownRight
        } else if i == 2 {
            AntDirection::DownLeft
        } else if i == 3 {
            AntDirection::Left
        } else if i == 4 {
            AntDirection::UpLeft
        } else {
            AntDirection::UpRight
        }
    }

    /// The direction encoded by `i` (East = 0, clockwise).
    pub fn from_index(i: u8) -> (r: AntDirection)
        requires
            i < 6,
        ensures
            r == AntDirection::spec_from_index(i as int),
            r.index() == i as int,
    {
        match i {
            0 => AntDirection::Right,
            1 => AntDirection::DownRight,
            2 => AntDirection::DownLeft,
            3 => AntDirection::Left,
            4 => AntDirection::UpLeft,
            _ => AntDirection::UpRight,
        }
    }

    /// One step counter-clockwise: index `(d + 5) mod 6`.
    pub open spec fn spec_turn_left(self) -> AntDirection {
        match self {
            AntDirection::Right => AntDirection::UpRight,
            AntDirection::DownRight => AntDirection::Right,
            AntDirection::DownLeft => AntDirection::DownRight,
            AntDirection::Left => AntDirection::DownLeft,
            AntDirection::UpLeft => AntDirection::Left,
            AntDirection::UpRight => AntDirection::UpLeft,
        }
    }

    /// One step clockwise: index `(d + 1) mod 6`.
    pub open spec fn spec_turn_right(self) -> AntDirection {
        match self {
            AntDirection::Right => AntDirection::DownRight,
            AntDirection::DownRight => AntDirection::DownLeft,
            AntDirection::DownLeft => AntDirection::Left,
            AntDirection::Left => AntDirection::UpLeft,
            AntDirection::UpLeft => AntDirection::UpRight,
            AntDirection::UpRight => AntDirection::Right,
        }
    }

    /// The heading after turning one step in direction `t`.
    pub open spec fn spec_turn(self, t: TurnDir) -> AntDirection {
        match t {
            TurnDir::Left => self.spec_turn_left(),
            TurnDir::Right => self.spec_turn_right(),
        }
    }

    /// Turn one step left or right.
    pub fn turn(self, t: TurnDir) -> (r: AntDirection)
        ensures
            r == self.spec_turn(t),
    {
        match t {
            TurnDir::Left => match self {
                AntDirection::Right => AntDirection::UpRight,
                AntDirection::DownRight => AntDirection::Right,
                AntDirection::DownLeft => AntDirection::DownRight,
                AntDirection::Left => AntDirection::DownLeft,
                AntDirection::UpLeft => AntDirection::Left,
                AntDirection::UpRight => AntDirection::UpLeft,
            },
            TurnDir::Right => match self {
                AntDirection::Right => AntDirection::DownRight,
                AntDirection::DownRight => AntDirection::DownLeft,
                AntDirection::DownLeft => AntDirection::Left,
                AntDirection::Left => AntDirection::UpLeft,
                AntDirection::UpLeft => AntDirection::UpRight,
                AntDirection::UpRight => AntDirection::Right,
            },
        }
    }

    /// All six directions, in the canonical scan order East, South-East,
    /// South-West, West, North-West, North-East.
    pub fn all() -> (r: Vec<AntDirection>)
        ensures
            r@.len() == 6,
            forall|k: int| 0 <= k < 6 ==> r@[k] == AntDirection::spec_from_index(k),
    {
        let mut r: Vec<AntDirection> = Vec::new();
        r.push(AntDirection::Right);
        r.push(AntDirection::DownRight);
        r.push(AntDirection::DownLeft);
        r.push(AntDirection::Left);
        r.push(AntDirection::UpLeft);
        r.push(AntDirection::UpRight);
        r
    }
}

/// Every direction value is encoded in `{0, .., 5}`, and the encoding is a
/// bijection with `spec_from_index`.
pub proof fn lemma_direction_index_range(d: AntDirection)
    ensures
        0 <= d.index() < 6,
        AntDirection::spec_from_index(d.index()) == d,
{
}

/// A left turn followed by a right turn (or the other way round) is the
/// identity: `turn` is its own inverse across the two turn directions.
pub proof fn lemma_turn_left_right_inverse(d: AntDirection)
    ensures
        d.spec_turn_left().spec_turn_right() == d,
        d.spec_turn_right().spec_turn_left() == d,
{
}

/// Six right turns are the identity: turning is closed over the six hex
/// directions.
pub proof fn lemma_six_right_turns(d: AntDirection)
    ensures
        d.spec_turn_right().spec_turn_right().spec_turn_right()
            .spec_turn_right().spec_turn_right().spec_turn_right() == d,
{
}

/// Six left turns are the identity: an ant that executes `Turn(Left)` six
/// times is back at its original heading.
pub proof fn lemma_six_left_turns(d: AntDirection)
    ensures
        d.spec_turn_left().spec_turn_left().spec_turn_left()
            .spec_turn_left().spec_turn_left().spec_turn_left() == d,
{
}

/// One ant: its identity, colony, heading, program counter, carrying flag
/// and resting countdown.
#[derive(Clone, Copy, Debug, PartialEq, Eq, Structural)]
pub struct Ant {
    /// Assignment order during population; also the ant's slot in the
    /// ant-position index.
    pub id: usize,
    /// The colony the ant belongs to.
    pub color: AntColor,
    /// The hex direction the ant faces.
    pub direction: AntDirection,
    /// The index of the next instruction in the colony's program.
    pub state: u32,
    /// Whether the ant carries one particle of food.
    pub has_food: bool,
    /// Rounds left to rest after a successful move; the ant executes nothing
    /// while this is positive.
    pub resting: u8,
}

impl Ant {
    /// A freshly placed ant: facing East, at instruction 0, carrying
    /// nothing, not resting.
    pub fn new(id: usize, color: AntColor) -> (r: Ant)
        ensures
            r == (Ant {
                id,
                color,
                direction: AntDirection::Right,
                state: 0u32,
                has_food: false,
                resting: 0u8,
            }),
    {
        Ant { id, color, direction: AntDirection::Right, state: 0, has_food: false, resting: 0 }
    }
}

} // verus!
