//! Whether an episode continues after a transition or has reached its end.

use vstd::prelude::*;

verus! {

/// The episode outcome reported with every reward: the game either goes on
/// or is over (win, loss or draw).
#[derive(Debug, Clone, Copy, PartialEq, Eq, Structural)]
pub enum NextStep {
    ContinueGame,
    DoneGame,
}

} // verus!
