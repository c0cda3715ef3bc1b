use rl_tic_tac_toe::agent::compute_return;
use rl_tic_tac_toe::agent::effective_rate;
use rl_tic_tac_toe::agent::update_value;
use rl_tic_tac_toe::random_grid_state;
use rl_tic_tac_toe::Agent;
use rl_tic_tac_toe::GameState;
use rl_tic_tac_toe::GridState;
use rl_tic_tac_toe::NextStep;
use rl_tic_tac_toe::TicTacToeEnvironment;
use rl_tic_tac_toe::PENALTY;
use rl_tic_tac_toe::SCALE;
use rl_tic_tac_toe::WIN_REWARD;

const ALPHA: i64 = SCALE / 100;

#[test]
fn test_winning_line_step_end_to_end() {
    // Stepping from a board whose prior state already shows the winning O
    // line ends the episode with the win reward and O as the winner; the
    // game is not live, so no mark is placed.
    let line = GameState([
        Some(GridState::O),
        Some(GridState::O),
        Some(GridState::O),
        None,
        None,
        None,
        None,
        None,
        None,
    ]);

    let mut environment = TicTacToeEnvironment::new();
    environment.state = line;

    let (board, reward, next_step, winner) = environment.step(3, line);
    assert_eq!(reward, WIN_REWARD);
    assert_eq!(next_step, NextStep::DoneGame);
    assert_eq!(winner, Some(GridState::O));
    assert_eq!(board, line);
    assert_eq!(environment.get_state(), line);

    let (board, reward, next_step, winner) = environment.step(8, line);
    assert_eq!(reward, WIN_REWARD);
    assert_eq!(next_step, NextStep::DoneGame);
    assert_eq!(winner, Some(GridState::O));
    assert_eq!(board, line);
}

#[test]
fn test_draw_board_step_end_to_end() {
    // A full board with no three-in-a-row yields reward zero, a finished
    // episode, and no winner.
    let draw = GameState([
        Some(GridState::X), // x o x
        Some(GridState::O), // x o o
        Some(GridState::X), // o x o
        Some(GridState::X),
        Some(GridState::O),
        Some(GridState::O),
        Some(GridState::O),
        Some(GridState::X),
        Some(GridState::O),
    ]);

    let mut environment = TicTacToeEnvironment::new();
    environment.state = draw;

    let (_, reward, next_step, winner) = environment.step(0, draw);
    assert_eq!(reward, 0);
    assert_eq!(next_step, NextStep::DoneGame);
    assert_eq!(winner, None);
}

#[test]
fn test_penalty_on_unchanged_board() {
    // A non-terminal board handed in as both prior and current state earns
    // exactly the no-op penalty, whatever the cells hold.
    let mut half = GameState::new();
    half.0[0] = Some(GridState::O);
    half.0[4] = Some(GridState::X);

    let mut environment = TicTacToeEnvironment::new();
    environment.state = half;

    let (reward, next_step, winner) = environment.get_reward(half, half);
    assert_eq!(reward, PENALTY);
    assert_eq!(next_step, NextStep::ContinueGame);
    assert_eq!(winner, None);

    let empty = GameState::new();
    environment.reset();
    let (reward, next_step, winner) = environment.get_reward(empty, empty);
    assert_eq!(reward, PENALTY);
    assert_eq!(next_step, NextStep::ContinueGame);
    assert_eq!(winner, None);
}

#[test]
fn test_reset_is_idempotent() {
    let mut environment = TicTacToeEnvironment::new();
    environment.state.0[2] = Some(GridState::X);
    environment.state.0[7] = Some(GridState::O);

    environment.reset();
    assert_eq!(environment.get_state(), GameState::new());

    environment.reset();
    assert_eq!(environment.get_state(), GameState::new());
}

#[test]
fn test_turn_flips_after_first_move() {
    let empty = GameState::new();
    assert_eq!(empty.check_turn(), GridState::O);

    for cell in 0..9 {
        let mut environment = TicTacToeEnvironment::new();
        let (board, _, _, _) = environment.step(cell, GameState::new());
        assert_eq!(board.0[cell], Some(GridState::O));
        assert_eq!(board.check_turn(), GridState::X);
    }
}

#[test]
fn test_learning_rate_decays_to_floor() {
    // The effective rate is one n-th of a unit floored at alpha: it never
    // increases with the visit count, and sits at the floor from then on.
    let mut previous = effective_rate(ALPHA, 1);
    assert_eq!(previous, SCALE);
    for n in 2..400u64 {
        let rate = effective_rate(ALPHA, n);
        assert!(rate <= previous);
        assert!(rate >= ALPHA);
        previous = rate;
    }
    // 1/n reaches the floor of 0.01 units at n = 100 and stays there.
    assert_eq!(effective_rate(ALPHA, 100), ALPHA);
    assert_eq!(effective_rate(ALPHA, 101), ALPHA);
    assert_eq!(effective_rate(ALPHA, 1_000_000), ALPHA);
}

#[test]
fn test_update_value_formula() {
    // A full-rate update lands exactly on the target return.
    assert_eq!(update_value(0, 1_000_000, SCALE), 1_000_000);
    // A quarter-rate update towards a lower return: 500000 + 0.25 *
    // (-400000 - 500000) = 275000.
    assert_eq!(update_value(500_000, -400_000, SCALE / 4), 275_000);
    // Moving towards the current value changes nothing.
    assert_eq!(update_value(123_456, 123_456, SCALE / 2), 123_456);
}

#[test]
fn test_compute_return_discounts() {
    let s = GameState::new();
    // A win two steps after the first recorded move is worth 0.9^2 of a
    // unit at that move.
    let experience = vec![(s, 0usize, 0i64), (s, 1usize, 0i64), (s, 2usize, 1_000_000i64)];
    assert_eq!(compute_return(&experience, 0), 810_000);
    assert_eq!(compute_return(&experience, 1), 900_000);
    assert_eq!(compute_return(&experience, 2), 1_000_000);
    assert_eq!(compute_return(&experience, 3), 0);

    // A penalty followed by a win: -0.4 + 0.9 * 1.0 = 0.5 units.
    let mixed = vec![(s, 0usize, -400_000i64), (s, 1usize, 1_000_000i64)];
    assert_eq!(compute_return(&mixed, 0), 500_000);
}

#[test]
fn test_policy_explores_uniformly() {
    // With the exploration rate at one unit, every draw explores: all 9
    // cells come back, in roughly even shares.
    let agent = Agent::new(SCALE, ALPHA);
    let env = TicTacToeEnvironment::new();

    let mut counts = [0u32; 9];
    let draws = 9_000;
    for _ in 0..draws {
        let action = agent.policy(&env);
        assert!(action < 9);
        counts[action] += 1;
    }
    for &count in counts.iter() {
        assert!(count > 600, "an action came back far too rarely: {count}");
        assert!(count < 1400, "an action came back far too often: {count}");
    }
}

#[test]
fn test_policy_greedy_is_deterministic() {
    // With exploration off and the state seen, the policy always picks the
    // greatest value, and the lowest index wins among ties.
    let mut agent = Agent::new(0, ALPHA);
    let env = TicTacToeEnvironment::new();

    let row: [i64; 9] = [3, 7, 7, 2, 1, 0, 0, 0, 0];
    agent.q.insert(GameState::new().encode(), row);

    for _ in 0..100 {
        assert_eq!(agent.policy(&env), 1);
    }
}

#[test]
fn test_random_grid_state_draws_both_marks() {
    let mut saw_o = false;
    let mut saw_x = false;
    for _ in 0..1_000 {
        match random_grid_state() {
            GridState::O => saw_o = true,
            GridState::X => saw_x = true,
        }
    }
    assert!(saw_o && saw_x);
}

#[test]
fn test_play_log_shape() {
    // Only the last log entry may carry a winner; every earlier one
    // belongs to a continuing game: no winner, penalty or zero reward.
    let mut agent = Agent::new(SCALE / 10, ALPHA);
    let mut env = TicTacToeEnvironment::new();

    for _ in 0..100 {
        let log = agent.play(&mut env);
        assert!(!log.is_empty());
        // The first step of an episode can never end it: no stale outcome
        // from an earlier episode leaks in.
        assert_eq!(log[0].0, None);
        for (winner, reward) in &log[..log.len() - 1] {
            assert_eq!(*winner, None);
            assert!(*reward == PENALTY || *reward == 0);
        }
    }
}

#[test]
fn test_play_preserves_untouched_rows() {
    // Rows of states outside an episode's trajectory are never touched,
    // and visit counts never decrease. Board codes stay below 3^9, so a
    // key of one million can never belong to a played board.
    let mut agent = Agent::new(SCALE / 10, ALPHA);
    let mut env = TicTacToeEnvironment::new();

    let untouched_key: u64 = 1_000_000;
    let seeded_values: [i64; 9] = [7, -3, 0, 1, 2, 3, 4, 5, 6];
    let seeded_counts: [u64; 9] = [1, 2, 3, 4, 5, 6, 7, 8, 9];
    agent.q.insert(untouched_key, seeded_values);
    agent.n.insert(untouched_key, seeded_counts);

    for _ in 0..20 {
        agent.play(&mut env);
    }
    assert_eq!(agent.q.get(&untouched_key), Some(&seeded_values));
    assert_eq!(agent.n.get(&untouched_key), Some(&seeded_counts));

    let snapshot = agent.n.clone();
    for _ in 0..20 {
        agent.play(&mut env);
    }
    for (key, old_row) in &snapshot {
        let new_row = agent.n.get(key).expect("a table entry was removed");
        for a in 0..9 {
            assert!(new_row[a] >= old_row[a]);
        }
    }
}

#[test]
fn test_play_updates_tables() {
    let mut agent = Agent::new(SCALE / 10, ALPHA);
    let mut env = TicTacToeEnvironment::new();

    for _ in 0..50 {
        let log = agent.play(&mut env);
        assert!(!log.is_empty());
        for (_, reward) in log {
            assert!(
                reward == PENALTY
                    || reward == WIN_REWARD
                    || reward == -WIN_REWARD
                    || reward == 0
            );
        }
    }
    assert!(!agent.n.is_empty());
    assert!(!agent.q.is_empty());
    assert_eq!(agent.n.len(), agent.q.len());
}
