//! A tabular reinforcement-learning engine that learns Tic-Tac-Toe by
//! self-play.
//!
//! The crate is built from three pieces: an immutable 9-cell board value
//! ([`GameState`]) with win/turn/terminal queries, an environment
//! ([`TicTacToeEnvironment`]) that turns an action into a shaped reward and a
//! next state, and an agent ([`Agent`]) that selects actions epsilon-greedily
//! and updates a per-state-action value table with a Monte-Carlo return.
//!
//! All scalar quantities that are conceptually fractions of a unit — rewards,
//! action values, exploration and learning rates, discount weights — are kept
//! as 64-bit integers counted in millionths of a unit ([`SCALE`] per whole
//! unit), so every arithmetic step has an exact, machine-checked meaning.

pub mod agent;
pub mod environment;
pub mod game_state;
pub mod grid_state;
pub mod next_step;
pub mod rng;

pub use agent::Agent;
pub use agent::SCALE;
pub use environment::TicTacToeEnvironment;
pub use environment::LOSE_REWARD;
pub use environment::PENALTY;
pub use environment::WIN_REWARD;
pub use game_state::GameState;
pub use grid_state::random_grid_state;
pub use grid_state::GridState;
pub use next_step::NextStep;
