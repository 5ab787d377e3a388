//! The three marks a guessed letter can receive.

use vstd::prelude::*;

verus! {

/// The mark of one guessed letter.
#[derive(Copy, Clone, Debug, PartialEq, Eq, Structural)]
pub enum Color {
    /// The letter stands at this place in the solution.
    Green,
    /// The letter stands at another, not yet matched place in the solution.
    Yellow,
    /// The letter matches nothing that is left of the solution.
    Black,
}

impl Color {
    /// The base-3 digit that stands for this colour in a feedback code.
    pub open spec fn digit(self) -> nat {
        match self {
            Color::Black => 0,
            Color::Yellow => 1,
            Color::Green => 2,
        }
    }

    /// The colour that a base-3 digit stands for.
    pub open spec fn of_digit(d: nat) -> Color {
        if d == 2 {
            Color::Green
        } else if d == 1 {
            Color::Yellow
        } else {
            Color::Black
        }
    }
}

} // verus!
