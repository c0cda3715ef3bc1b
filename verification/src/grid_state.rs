//! The two player symbols that can occupy a board cell.

use vstd::prelude::*;

use crate::rng::random_below;

verus! {

/// One of the two player symbols. `O` always moves first on an empty board.
#[derive(Debug, Clone, Copy, Hash, PartialEq, Eq, Structural)]
pub enum GridState {
    O,
    X,
}

impl GridState {
    /// The symbol the opposing player uses.
    pub open spec fn other_spec(self) -> GridState {
        match self {
            GridState::O => GridState::X,
            GridState::X => GridState::O,
        }
    }
}

/// Draws one of the two symbols at random, with even odds; used to assign the
/// learner's symbol at the start of an episode. Either symbol can come back.
pub fn random_grid_state() -> (mark: GridState)
    ensures
        mark == GridState::O || mark == GridState::X,
{
    if random_below(2) == 0 {
        GridState::O
    } else {
        GridState::X
    }
}

} // verus!
