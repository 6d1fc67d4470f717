use tic_tac_toe::game::Game;
use tic_tac_toe::game::PlayerSymbol;
use tic_tac_toe::minimax::minimax;

#[test]
fn perfect_play_from_empty_board_is_a_draw() {
    let mut game = Game::new();
    let (score, best_move) = minimax(&mut game, true);
    assert_eq!(score, 0);
    // Every opening move holds the draw, so the first one examined is kept.
    assert_eq!(best_move, Some((0, 0)));
}

#[test]
fn cross_completes_its_row() {
    // Row 0 holds two crosses; searching for Cross (the minimizing side,
    // whose wins score -1) must pick the winning cell (2, 0).
    let mut game = Game::new();
    game.set_cell(0, 0, Some(PlayerSymbol::Cross));
    game.set_cell(1, 0, Some(PlayerSymbol::Cross));
    let (score, best_move) = minimax(&mut game, false);
    assert_eq!(score, -1);
    assert_eq!(best_move, Some((2, 0)));
}

#[test]
fn nought_blocks_an_immediate_threat() {
    // Cross threatens to complete row 0 at (2, 0). Searching as Nought must
    // block there, and the blocked game is a draw with best play.
    let mut game = Game::new();
    game.set_cell(0, 0, Some(PlayerSymbol::Cross));
    game.set_cell(1, 1, Some(PlayerSymbol::Nought));
    game.set_cell(1, 0, Some(PlayerSymbol::Cross));
    let (score, best_move) = minimax(&mut game, true);
    assert_eq!(score, 0);
    assert_eq!(best_move, Some((2, 0)));
}

#[test]
fn terminal_boards_return_fixed_scores_without_a_move() {
    let mut cross_won = Game::new();
    assert!(cross_won.set_position_id(String::from("XXXOOXXOO/22")).is_ok());
    assert_eq!(minimax(&mut cross_won, true), (-1, None));
    assert_eq!(minimax(&mut cross_won, false), (-1, None));

    let mut nought_won = Game::new();
    assert!(nought_won.set_position_id(String::from("OOONNXXXN/20")).is_ok());
    assert_eq!(minimax(&mut nought_won, true), (1, None));

    let mut drawn = Game::new();
    assert!(drawn.set_position_id(String::from("XXOOOXXXO/22")).is_ok());
    assert_eq!(minimax(&mut drawn, true), (0, None));
}

#[test]
fn search_restores_the_board() {
    let mut game = Game::new();
    game.set_cell(0, 0, Some(PlayerSymbol::Cross));
    let id_before = game.get_position_id();
    let player_before = game.get_current_player();
    let _ = minimax(&mut game, true);
    assert_eq!(game.get_position_id(), id_before);
    assert_eq!(game.get_current_player(), player_before);
}
