//! The closed instruction set that ant programs are written in, with the
//! sense conditions and the validity predicate for whole programs.

use vstd::prelude::*;
use crate::ant::AntColor;
use crate::world::Cell;

verus! {

/// The two ways an ant can turn.
#[derive(Clone, Copy, Debug, PartialEq, Eq, Structural)]
pub enum TurnDir {
    Left,
    Right,
}

/// Where a `Sense` instruction looks, relative to the acting ant.
#[derive(Clone, Copy, Debug, PartialEq, Eq, Structural)]
pub enum SenseDir {
    Here,
    Ahead,
    LeftAhead,
    RightAhead,
}

/// What a `Sense` instruction tests on the sensed cell, always evaluated
/// with respect to the acting ant's color.
#[derive(Clone, Copy, Debug, PartialEq, Eq, Structural)]
pub enum Condition {
    /// An ant of the acting ant's own color.
    Friend,
    /// An ant of the opposing color.
    Foe,
    /// An own-color ant carrying food.
    FriendWithFood,
    /// An opposing ant carrying food.
    FoeWithFood,
    /// At least one particle of food.
    Food,
    /// A rocky cell.
    Rock,
    /// The given marker bit of the acting ant's own color.
    Marker(u8),
    /// Any marker bit of the opposing color.
    FoeMarker,
    /// An anthill cell of the acting ant's own color.
    Home,
    /// An anthill cell of the opposing color.
    FoeHome,
}

impl Condition {
    /// The truth value of this condition on `cell`, for an acting ant of
    /// color `color`.
    pub open spec fn spec_eval(self, cell: Cell, color: AntColor) -> bool {
        match self {
            Condition::Friend => match cell.ant {
                Some(a) => a.color == color,
                None => false,
            },
            Condition::Foe => match cell.ant {
                Some(a) => a.color != color,
                None => false,
            },
            Condition::FriendWithFood => match cell.ant {
                Some(a) => a.color == color && a.has_food,
                None => false,
            },
            Condition::FoeWithFood => match cell.ant {
                Some(a) => a.color != color && a.has_food,
                None => false,
            },
            Condition::Food => cell.food > 0,
            Condition::Rock => cell.is_rocky,
            Condition::Marker(m) => crate::util::bit_test(cell.spec_markers(color).bits, m),
            Condition::FoeMarker => cell.spec_markers(color.spec_other()).bits != 0,
            Condition::Home => cell.anthill == Some(color),
            Condition::FoeHome => cell.anthill == Some(color.spec_other()),
        }
    }

    /// Evaluate this condition on `cell` for an acting ant of color `color`.
    pub fn eval(self, cell: &Cell, color: AntColor) -> (r: bool)
        requires
            self matches Condition::Marker(m) ==> m < 6,
        ensures
            r == self.spec_eval(*cell, color),
    {
        match self {
            Condition::Friend => match &cell.ant {
                Some(a) => a.color == color,
                None => false,
            },
            Condition::Foe => match &cell.ant {
                Some(a) => a.color != color,
                None => false,
            },
            Condition::FriendWithFood => match &cell.ant {
                Some(a) => a.color == color && a.has_food,
                None => false,
            },
            Condition::FoeWithFood => match &cell.ant {
                Some(a) => a.color != color && a.has_food,
                None => false,
            },
            Condition::Food => cell.food > 0,
            Condition::Rock => cell.is_rocky,
            Condition::Marker(m) => cell.markers(color).test(m),
            Condition::FoeMarker => cell.markers(color.other()).any_set(),
            Condition::Home => cell.anthill == Some(color),
            Condition::FoeHome => cell.anthill == Some(color.other()),
        }
    }
}

/// One instruction of an ant program.  Operands named `st`, `success_state`
/// and the like are indices back into the same program.
#[derive(Clone, Copy, Debug, PartialEq, Eq, Structural)]
pub enum Instruction {
    /// Test a condition on a nearby cell; go to the first state when it
    /// holds, the second when it does not.
    Sense(SenseDir, u32, u32, Condition),
    /// Set the given own-color marker bit here, then go to the state.
    Mark(u8, u32),
    /// Clear the given own-color marker bit here, then go to the state.
    Unmark(u8, u32),
    /// Try to pick up food here: first state on success, second on failure.
    PickUp(u32, u32),
    /// Drop carried food here, if any, then go to the state.
    Drop(u32),
    /// Turn one step, then go to the state.
    Turn(TurnDir, u32),
    /// Try to step ahead: first state on success, second on failure.
    Move(u32, u32),
    /// Draw a random value below the given bound; go to the first state when
    /// it is zero, else to the second.
    Flip(u32, u32, u32),
}

/// Whether one instruction is well formed for a program of `len` states:
/// every state operand stays in range, marker operands name one of the six
/// marker bits, and `Flip` bounds are positive.
pub open spec fn valid_instruction(ins: Instruction, len: int) -> bool {
    match ins {
        Instruction::Sense(_, st1, st2, cond) => {
            st1 < len && st2 < len && (cond matches Condition::Marker(m) ==> m < 6)
        },
        Instruction::Mark(m, st) => m < 6 && st < len,
        Instruction::Unmark(m, st) => m < 6 && st < len,
        Instruction::PickUp(st1, st2) => st1 < len && st2 < len,
        Instruction::Drop(st) => st < len,
        Instruction::Turn(_, st) => st < len,
        Instruction::Move(st1, st2) => st1 < len && st2 < len,
        Instruction::Flip(n, st1, st2) => n >= 1 && st1 < len && st2 < len,
    }
}

/// Whether a whole program is well formed: closed under its own state
/// transitions.  An ant whose state is in range stays in range forever.
pub open spec fn valid_program(p: Seq<Instruction>) -> bool {
    forall|i: int| 0 <= i < p.len() ==> valid_instruction(#[trigger] p[i], p.len() as int)
}

} // verus!
