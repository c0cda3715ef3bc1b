use rl_tic_tac_toe::GameState;
use rl_tic_tac_toe::GridState;

fn get_5_game_state() -> (GameState, GameState, GameState, GameState, GameState) {
    let game_state0 = GameState::new();

    let mut game_state1 = GameState::new();
    game_state1.0[1] = Some(GridState::O);
    game_state1.0[4] = Some(GridState::X);
    game_state1.0[7] = Some(GridState::O);

    let mut game_state2 = GameState::new();
    game_state2.0[1] = Some(GridState::O);
    game_state2.0[4] = Some(GridState::X);
    game_state2.0[7] = Some(GridState::O);

    let mut game_state3 = GameState::new();
    game_state3.0[1] = Some(GridState::X);
    game_state3.0[4] = Some(GridState::X);
    game_state3.0[7] = Some(GridState::O);

    let game_state4 = GameState([
        Some(GridState::O),
        Some(GridState::X),
        Some(GridState::X),
        Some(GridState::O),
        Some(GridState::O),
        Some(GridState::X),
        Some(GridState::X),
        Some(GridState::O),
        Some(GridState::O),
    ]);

    (
        game_state0,
        game_state1,
        game_state2,
        game_state3,
        game_state4,
    )
}

#[test]
fn test_game_state() {
    let (gs0, gs1, gs2, gs3, gs4) = get_5_game_state();
    assert_ne!(gs1, gs0);
    assert_eq!(gs1, gs2);
    assert_ne!(gs1, gs3);
    assert_ne!(gs1, gs4);
}

#[test]
fn test_is_finished() {
    let (gs0, _, gs2, _, gs4) = get_5_game_state();

    assert!(!gs0.is_game_finished());
    assert!(!gs2.is_game_finished());
    assert!(gs4.is_game_finished());
}

#[test]
fn test_check_turn() {
    let (gs0, gs1, gs2, gs3, gs4) = get_5_game_state();

    assert_eq!(gs0.check_turn(), GridState::O);
    assert_eq!(gs1.check_turn(), GridState::X);
    assert_eq!(gs2.check_turn(), GridState::X);
    assert_eq!(gs3.check_turn(), GridState::O);
    assert_eq!(gs4.check_turn(), GridState::X);
}

#[test]
fn test_get_winner() {
    let (gs0, _, _, _, gs4) = get_5_game_state();

    assert!(gs0.get_winner().is_none());
    assert_eq!(gs4.get_winner(), Some(GridState::O));

    let gs5 = GameState([
        Some(GridState::X),
        Some(GridState::X),
        Some(GridState::O),
        Some(GridState::O),
        Some(GridState::O),
        Some(GridState::O),
        Some(GridState::X),
        Some(GridState::O),
        Some(GridState::X),
    ]);

    let gs6 = GameState([
        Some(GridState::X),
        Some(GridState::X),
        Some(GridState::O),
        Some(GridState::O),
        Some(GridState::X),
        Some(GridState::X),
        Some(GridState::O),
        Some(GridState::X),
        Some(GridState::O),
    ]);

    let gs7 = GameState([
        Some(GridState::O),
        Some(GridState::X),
        Some(GridState::X),
        Some(GridState::X),
        Some(GridState::O),
        Some(GridState::O),
        Some(GridState::X),
        Some(GridState::O),
        Some(GridState::O),
    ]);

    assert_eq!(gs5.get_winner(), Some(GridState::O));
    assert_eq!(gs6.get_winner(), Some(GridState::X));
    assert_eq!(gs7.get_winner(), Some(GridState::O));
}

#[test]
fn test_encode_distinguishes_boards() {
    let (gs0, gs1, gs2, gs3, gs4) = get_5_game_state();

    assert_eq!(gs0.encode(), 0);
    assert_eq!(gs1.encode(), gs2.encode());
    assert_ne!(gs1.encode(), gs0.encode());
    assert_ne!(gs1.encode(), gs3.encode());
    assert_ne!(gs1.encode(), gs4.encode());

    // One O in the lowest cell is the lowest non-zero code; one X there
    // doubles it.
    let mut lone_o = GameState::new();
    lone_o.0[0] = Some(GridState::O);
    assert_eq!(lone_o.encode(), 1);
    let mut lone_x = GameState::new();
    lone_x.0[0] = Some(GridState::X);
    assert_eq!(lone_x.encode(), 2);
    let mut high_o = GameState::new();
    high_o.0[8] = Some(GridState::O);
    assert_eq!(high_o.encode(), 6561);
}

#[test]
fn test_render_grid() {
    let (_, gs1, _, _, gs4) = get_5_game_state();

    assert_eq!(GameState::new().render(), "   \n   \n   ");
    assert_eq!(gs1.render(), " o \n x \n o ");
    assert_eq!(gs4.render(), "oxx\noox\nxoo");
}
