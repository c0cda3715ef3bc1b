//! The environment state machine: applies an action to the board and turns
//! the resulting transition into a shaped reward signal.
//!
//! Rewards are fixed-point integers counted in millionths of a unit: winning
//! play (as `O`) is worth one unit, losing play one negative unit, and a move
//! that changed nothing costs four tenths of a unit.

use vstd::prelude::*;

use crate::game_state::board_full;
use crate::game_state::empty_board;
use crate::game_state::turn_of;
use crate::game_state::winner_of;
use crate::game_state::GameState;
use crate::grid_state::GridState;
use crate::next_step::NextStep;

verus! {

/// Reward for a move that left the board unchanged: a no-op on an occupied
/// cell is deliberately absorbed and penalised rather than treated as an
/// error, so the learner is trained away from illegal actions.
pub const PENALTY: i64 = -400_000;

/// Reward when the prior state already shows `O` as the winner.
pub const WIN_REWARD: i64 = 1_000_000;

/// Reward when the prior state already shows `X` as the winner: the learner
/// is always scored from `O`'s perspective.
pub const LOSE_REWARD: i64 = -1_000_000;

/// The reward-shaping rule, comparing the caller's prior state `last`
/// against a candidate state `new` while the environment holds `env`: an
/// unchanged board that is not yet terminal — neither full nor already won
/// — earns the no-op penalty; a prior winner ends the episode with the win
/// or lose reward; a full environment board with no prior winner ends it
/// as a draw; anything else continues at zero.
pub open spec fn reward_spec(
    last: Seq<Option<GridState>>,
    new: Seq<Option<GridState>>,
    env: Seq<Option<GridState>>,
) -> (i64, NextStep, Option<GridState>) {
    if last == new && !board_full(last) && winner_of(last) is None {
        (PENALTY, NextStep::ContinueGame, None)
    } else {
        match winner_of(last) {
            Some(GridState::O) => (WIN_REWARD, NextStep::DoneGame, Some(GridState::O)),
            Some(GridState::X) => (LOSE_REWARD, NextStep::DoneGame, Some(GridState::X)),
            None => if board_full(env) {
                (0, NextStep::DoneGame, None)
            } else {
                (0, NextStep::ContinueGame, None)
            },
        }
    }
}

/// The board after attempting to fill cell `action`: the mark whose turn it
/// is lands there if the cell is empty; an occupied cell leaves the board
/// untouched.
pub open spec fn applied(b: Seq<Option<GridState>>, action: int) -> Seq<Option<GridState>> {
    if b[action] is None {
        b.update(action, Some(turn_of(b)))
    } else {
        b
    }
}

/// One environment step from board `pre`: the reward rule is consulted
/// first, and only when it reports a live game is the action applied and the
/// rule consulted again on the moved board.
pub open spec fn transition_spec(
    pre: Seq<Option<GridState>>,
    action: int,
    last: Seq<Option<GridState>>,
) -> (Seq<Option<GridState>>, (i64, NextStep, Option<GridState>)) {
    let first = reward_spec(last, pre, pre);
    if first.1 == NextStep::DoneGame {
        (pre, first)
    } else {
        let post = applied(pre, action);
        (post, reward_spec(last, post, post))
    }
}

/// Owns the current board and converts actions into rewards.
#[derive(Debug, Clone)]
pub struct TicTacToeEnvironment {
    pub state: GameState,
}

impl View for TicTacToeEnvironment {
    type V = Seq<Option<GridState>>;

    open spec fn view(&self) -> Seq<Option<GridState>> {
        self.state@
    }
}

/// Cell-by-cell comparison of two boards, equivalent to equality of their
/// views.
fn board_eq(a: &GameState, b: &GameState) -> (r: bool)
    ensures
        r == (a@ == b@),
{
    let mut i: usize = 0;
    while i < 9
        invariant
            i <= 9,
            forall|j: int| 0 <= j < i ==> a@[j] == b@[j],
        decreases 9 - i,
    {
        let same = match (a.0[i], b.0[i]) {
            (None, None) => true,
            (Some(x), Some(y)) => x == y,
            _ => false,
        };
        if !same {
            return false;
        }
        i += 1;
    }
    proof {
        assert(a@ =~= b@);
    }
    true
}

impl TicTacToeEnvironment {
    /// A fresh environment over the empty board.
    pub fn new() -> (e: Self)
        ensures
            e@ == empty_board(),
    {
        TicTacToeEnvironment { state: GameState::new() }
    }

    /// Clears all 9 cells back to empty.
    pub fn reset(&mut self)
        ensures
            final(self)@ == empty_board(),
    {
        self.state = GameState::new();
    }

    /// Applies `action_id` as a move by whichever mark is to play, but only
    /// when the reward rule, consulted against `last_state`, reports a live
    /// game; returns the post-step board with the recomputed reward, episode
    /// outcome and winner.
    pub fn step(&mut self, action_id: usize, last_state: GameState) -> (r: (
        GameState,
        i64,
        NextStep,
        Option<GridState>,
    ))
        requires
            action_id < 9,
        ensures
            ({
                let tr = transition_spec(old(self)@, action_id as int, last_state@);
                final(self)@ == tr.0 && r.0@ == tr.0 && (r.1, r.2, r.3) == tr.1
            }),
    {
        let (reward, next_step, winner) = self.transition(action_id, last_state);
        (self.get_state(), reward, next_step, winner)
    }

    /// The two-phase inner step: consult the reward rule, place the mark
    /// only on a live, empty target cell, then consult the rule again.
    pub fn transition(&mut self, action_id: usize, last_state: GameState) -> (r: (
        i64,
        NextStep,
        Option<GridState>,
    ))
        requires
            action_id < 9,
        ensures
            ({
                let tr = transition_spec(old(self)@, action_id as int, last_state@);
                final(self)@ == tr.0 && r == tr.1
            }),
    {
        let (reward, next_step, winner) = self.get_reward(last_state, self.state);

        if next_step == NextStep::DoneGame {
            return (reward, next_step, winner);
        }

        if self.state.0[action_id].is_none() {
            let mark = self.state.check_turn();
            self.state.0[action_id] = Some(mark);
        }

        self.get_reward(last_state, self.state)
    }

    /// Evaluates the reward rule for the pair (`last_state`, `new_state`)
    /// against the environment's current board.
    pub fn get_reward(&self, last_state: GameState, new_state: GameState) -> (r: (
        i64,
        NextStep,
        Option<GridState>,
    ))
        ensures
            r == reward_spec(last_state@, new_state@, self@),
    {
        let winner = last_state.get_winner();
        if board_eq(&last_state, &new_state) && !last_state.is_game_finished()
            && winner.is_none() {
            (PENALTY, NextStep::ContinueGame, None)
        } else {
            match winner {
                Some(GridState::O) => (WIN_REWARD, NextStep::DoneGame, Some(GridState::O)),
                Some(GridState::X) => (LOSE_REWARD, NextStep::DoneGame, Some(GridState::X)),
                None => {
                    if self.state.is_game_finished() {
                        (0, NextStep::DoneGame, None)
                    } else {
                        (0, NextStep::ContinueGame, None)
                    }
                },
            }
        }
    }

    /// The current board, by value.
    pub fn get_state(&self) -> (s: GameState)
        ensures
            s == self.state,
            s@ == self@,
    {
        self.state
    }

    /// Draws the current board as a 3x3 text grid.
    pub fn render(&self) -> (out: String)
        ensures
            out@ == crate::game_state::render_spec(self@),
    {
        self.state.render()
    }

    /// Whose move it is on the current board.
    pub fn check_turn(&self) -> (m: GridState)
        ensures
            m == turn_of(self@),
    {
        self.state.check_turn()
    }
}

impl Default for TicTacToeEnvironment {
    /// Same as [`TicTacToeEnvironment::new`]: an empty board.
    fn default() -> (e: Self)
        ensures
            e@ == empty_board(),
    {
        TicTacToeEnvironment::new()
    }
}

/// Turn alternation through a move: when the two marks hold equally many
/// cells it is `O`'s move, and applying any action on an empty cell hands
/// the move to `X`.
pub proof fn lemma_move_flips_turn(b: Seq<Option<GridState>>, action: int)
    requires
        0 <= action < b.len(),
        b[action] is None,
        crate::game_state::mark_count(b, GridState::O) == crate::game_state::mark_count(
            b,
            GridState::X,
        ),
    ensures
        turn_of(b) == GridState::O,
        turn_of(applied(b, action)) == GridState::X,
{
    crate::game_state::lemma_turn_flips(b, action);
}

/// Reward determinism for no-op moves: whenever the prior state equals the
/// candidate state and is not terminal — neither full nor holding a
/// completed line — the rule yields exactly the fixed penalty, a
/// continuing game and no winner, whatever the environment board, the cell
/// or the marks involved.
pub proof fn lemma_penalty_determinism(
    last: Seq<Option<GridState>>,
    new: Seq<Option<GridState>>,
    env: Seq<Option<GridState>>,
)
    requires
        last == new,
        !board_full(last),
        winner_of(last) is None,
    ensures
        reward_spec(last, new, env) == (PENALTY, NextStep::ContinueGame, None::<GridState>),
{
}

} // verus!
