use rl_tic_tac_toe::GameState;
use rl_tic_tac_toe::GridState;
use rl_tic_tac_toe::NextStep;
use rl_tic_tac_toe::TicTacToeEnvironment;
use rl_tic_tac_toe::LOSE_REWARD;
use rl_tic_tac_toe::PENALTY;
use rl_tic_tac_toe::WIN_REWARD;

#[test]
fn test_env() {
    let mut environment = TicTacToeEnvironment::new();
    environment.state.0[3] = Some(GridState::O);

    environment.reset();

    assert!(environment.state.0.iter().all(|gs| gs.is_none()));

    let get_st = environment.get_state();
    assert_eq!(get_st, GameState::default());

    let turn = environment.check_turn();
    assert_eq!(turn, GridState::O);
}

#[test]
fn test_get_reward() {
    let o_win = GameState([
        Some(GridState::X), // x x o
        Some(GridState::X), // o o o
        Some(GridState::O), // x o x
        Some(GridState::O),
        Some(GridState::O),
        Some(GridState::O),
        Some(GridState::X),
        Some(GridState::O),
        Some(GridState::X),
    ]);

    let x_win = GameState([
        Some(GridState::X), // x x o
        Some(GridState::X), // o x x
        Some(GridState::O), // o x o
        Some(GridState::O),
        Some(GridState::X),
        Some(GridState::X),
        Some(GridState::O),
        Some(GridState::X),
        Some(GridState::O),
    ]);

    let draw = GameState([
        Some(GridState::X), // x o x
        Some(GridState::O), // x o o
        Some(GridState::X), // o x o
        Some(GridState::X),
        Some(GridState::O),
        Some(GridState::O),
        Some(GridState::O),
        Some(GridState::X),
        Some(GridState::O),
    ]);

    let init = GameState::default();

    let mut environment = TicTacToeEnvironment::new();

    environment.state = o_win;
    let aaa = environment.get_reward(o_win, environment.state);
    assert_eq!(aaa.0, WIN_REWARD);
    assert_eq!(aaa.1, NextStep::DoneGame);
    assert_eq!(aaa.2, Some(GridState::O));

    environment.state = x_win;
    let bbb = environment.get_reward(x_win, environment.state);
    assert_eq!(bbb.0, LOSE_REWARD);
    assert_eq!(bbb.1, NextStep::DoneGame);
    assert_eq!(bbb.2, Some(GridState::X));

    environment.state = draw;
    let ccc = environment.get_reward(draw, environment.state);
    assert_eq!(ccc.0, 0);
    assert_eq!(ccc.1, NextStep::DoneGame);
    assert_eq!(ccc.2, None);

    environment.state = init;
    let ddd = environment.get_reward(init, environment.state);
    assert_eq!(ddd.0, PENALTY);
    assert_eq!(ddd.1, NextStep::ContinueGame);
    assert_eq!(ddd.2, None);

    // Transition
    environment.state.0[4] = Some(GridState::O);
    let eee = environment.get_reward(init, environment.state);
    assert_eq!(eee.0, 0);
    assert_eq!(eee.1, NextStep::ContinueGame);
    assert_eq!(eee.2, None);
}

#[test]
fn test_transition() {
    let mut o_win = GameState([
        Some(GridState::X), // x x o
        Some(GridState::X), //   o o
        Some(GridState::O), //   o x
        None,
        Some(GridState::O),
        Some(GridState::O),
        None,
        Some(GridState::O),
        Some(GridState::X),
    ]);

    let mut environment = TicTacToeEnvironment::new();

    environment.state = o_win;
    let aaa = environment.transition(6, o_win);
    assert_eq!(aaa.0, 0);
    assert_eq!(aaa.1, NextStep::ContinueGame);
    assert_eq!(aaa.2, None);

    o_win.0[6] = Some(GridState::X);

    environment.state = o_win;
    let bbb = environment.transition(3, o_win);
    assert_eq!(bbb.0, 0);
    assert_eq!(bbb.1, NextStep::DoneGame);
    assert_eq!(bbb.2, None);

    o_win.0[3] = Some(GridState::O);

    let ccc = environment.transition(0, o_win);
    assert_eq!(ccc.0, WIN_REWARD);
    assert_eq!(ccc.1, NextStep::DoneGame);
    assert_eq!(ccc.2, Some(GridState::O));
}

#[test]
fn test_step() {}
