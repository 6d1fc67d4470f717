use tic_tac_toe::game::Game;
use tic_tac_toe::game::GameError;
use tic_tac_toe::game::GameResult;
use tic_tac_toe::game::PlayerSymbol;
use tic_tac_toe::game::parse_output;

#[test]
fn empty_board_has_nine_moves_row_major() {
    let game = Game::new();
    let moves = game.get_available_moves();
    assert_eq!(
        moves,
        vec![
            (0, 0),
            (1, 0),
            (2, 0),
            (0, 1),
            (1, 1),
            (2, 1),
            (0, 2),
            (1, 2),
            (2, 2)
        ]
    );
}

#[test]
fn occupied_cell_leaves_state_unchanged() {
    let mut game = Game::new();
    assert!(game.add_symbol(1, 1).is_ok());
    let id_before = game.get_position_id();
    let player_before = game.get_current_player();

    let r = game.add_symbol(1, 1);
    assert_eq!(r, Err(GameError::OccupiedCell));
    assert_eq!(game.get_position_id(), id_before);
    assert_eq!(game.get_current_player(), player_before);
}

#[test]
fn position_round_trip_reproduces_board_and_last_move() {
    let mut game = Game::new();
    assert!(game.add_symbol(0, 0).is_ok());
    assert!(game.add_symbol(2, 1).is_ok());
    assert!(game.add_symbol(1, 2).is_ok());
    let id = game.get_position_id();

    let mut copy = Game::new();
    assert!(copy.set_position_id(id.clone()).is_ok());
    for y in 0..3 {
        for x in 0..3 {
            assert_eq!(copy.get_cell(x, y), game.get_cell(x, y));
        }
    }
    assert_eq!(copy.get_position_id(), id);
}

#[test]
fn new_game_encodes_as_all_empty() {
    let game = Game::new();
    assert_eq!(game.get_position_id(), "NNNNNNNNN/00");
}

#[test]
fn encode_after_one_move() {
    let mut game = Game::new();
    assert!(game.add_symbol(1, 0).is_ok());
    assert_eq!(game.get_position_id(), "NXNNNNNNN/10");
    assert_eq!(game.get_current_player(), PlayerSymbol::Nought);
}

#[test]
fn draw_exactly_when_full_without_winner() {
    // Full board, no uniform line.
    let mut game = Game::new();
    assert!(game.set_position_id(String::from("XXOOOXXXO/22")).is_ok());
    assert!(matches!(game.game_over(), Some(GameResult::Draw)));

    // Full board with a uniform line is a win, not a draw.
    let mut won = Game::new();
    assert!(won.set_position_id(String::from("XXXOOXXOO/22")).is_ok());
    assert!(matches!(
        won.game_over(),
        Some(GameResult::Win(PlayerSymbol::Cross))
    ));

    // A board with an empty cell and no uniform line is not over.
    let mut open_game = Game::new();
    assert!(open_game.set_position_id(String::from("XXOOOXXXN/12")).is_ok());
    assert!(open_game.game_over().is_none());
}

#[test]
fn game_over_detects_each_line_kind() {
    let mut column = Game::new();
    assert!(column.set_position_id(String::from("ONNONNOXX/02")).is_ok());
    assert!(matches!(
        column.game_over(),
        Some(GameResult::Win(PlayerSymbol::Nought))
    ));

    let mut row = Game::new();
    assert!(row.set_position_id(String::from("NNNXXXOON/22")).is_ok());
    assert!(matches!(
        row.game_over(),
        Some(GameResult::Win(PlayerSymbol::Cross))
    ));

    let mut diagonal = Game::new();
    assert!(diagonal.set_position_id(String::from("XONOXNNNX/22")).is_ok());
    assert!(matches!(
        diagonal.game_over(),
        Some(GameResult::Win(PlayerSymbol::Cross))
    ));

    let mut anti_diagonal = Game::new();
    assert!(anti_diagonal.set_position_id(String::from("XNONONONX/02")).is_ok());
    assert!(matches!(
        anti_diagonal.game_over(),
        Some(GameResult::Win(PlayerSymbol::Nought))
    ));
}

#[test]
fn decode_rejects_bad_cell_character() {
    let mut game = Game::new();
    let r = game.set_position_id(String::from("XXXOOONNQ/21"));
    assert_eq!(r, Err(GameError::InvalidFormat));
    // Nothing changed on failure.
    assert_eq!(game.get_position_id(), "NNNNNNNNN/00");
}

#[test]
fn decode_accepts_empty_board_string() {
    let mut game = Game::new();
    assert!(game.set_position_id(String::from("NNNNNNNNN/00")).is_ok());
    for y in 0..3 {
        for x in 0..3 {
            assert_eq!(game.get_cell(x, y), None);
        }
    }
    assert_eq!(game.get_position_id(), "NNNNNNNNN/00");
}

#[test]
fn decode_rejects_malformed_shapes() {
    let mut game = Game::new();
    assert!(game.set_position_id(String::from("NNNNNNNNN")).is_err());
    assert!(game.set_position_id(String::from("NNNNNNNNN/0")).is_err());
    assert!(game.set_position_id(String::from("NNNNNNNNN/000")).is_err());
    assert!(game.set_position_id(String::from("NNNNNNNN/00")).is_err());
    assert!(game.set_position_id(String::from("NNNN/NNNN/00")).is_err());
    assert!(game.set_position_id(String::from("NNNNNNNNN/0x")).is_err());
    assert!(game.set_position_id(String::from("")).is_err());
}

#[test]
fn decode_keeps_turn_untouched() {
    let mut game = Game::new();
    assert!(game.add_symbol(0, 0).is_ok());
    assert_eq!(game.get_current_player(), PlayerSymbol::Nought);
    assert!(game.set_position_id(String::from("NNNNNNNNN/00")).is_ok());
    // Decoding replaces the board but deliberately not whose turn it is.
    assert_eq!(game.get_current_player(), PlayerSymbol::Nought);
}

#[test]
fn parse_accepts_plain_coordinates() {
    assert_eq!(parse_output(String::from("1,2")), Ok((1, 2)));
    assert_eq!(parse_output(String::from("0,0")), Ok((0, 0)));
    assert_eq!(parse_output(String::from("2,2")), Ok((2, 2)));
}

#[test]
fn parse_trims_whitespace() {
    assert_eq!(parse_output(String::from(" 2 , 0 \n")), Ok((2, 0)));
    assert_eq!(parse_output(String::from("\t1,\t1")), Ok((1, 1)));
}

#[test]
fn parse_accepts_leading_plus() {
    assert_eq!(parse_output(String::from("+1,+2")), Ok((1, 2)));
}

#[test]
fn parse_rejects_bad_input() {
    assert_eq!(
        parse_output(String::from("1")),
        Err(GameError::InvalidInput)
    );
    assert_eq!(
        parse_output(String::from("a,b")),
        Err(GameError::InvalidInput)
    );
    assert_eq!(
        parse_output(String::from("3,0")),
        Err(GameError::InvalidInput)
    );
    assert_eq!(
        parse_output(String::from("0,3")),
        Err(GameError::InvalidInput)
    );
    assert_eq!(
        parse_output(String::from("1,,2")),
        Err(GameError::InvalidInput)
    );
    assert_eq!(
        parse_output(String::from("1,2,x")),
        Err(GameError::InvalidInput)
    );
    assert_eq!(
        parse_output(String::from("99999999999999999999999999,1")),
        Err(GameError::InvalidInput)
    );
    assert_eq!(
        parse_output(String::from("")),
        Err(GameError::InvalidInput)
    );
}

#[test]
fn parse_checks_every_token() {
    // Extra tokens are allowed only when they are numbers too.
    assert_eq!(parse_output(String::from("1,2,7")), Ok((1, 2)));
    assert_eq!(
        parse_output(String::from("1,2,notanumber")),
        Err(GameError::InvalidInput)
    );
}

#[test]
fn switch_flips_the_symbol() {
    assert_eq!(PlayerSymbol::Cross.switch(), PlayerSymbol::Nought);
    assert_eq!(PlayerSymbol::Nought.switch(), PlayerSymbol::Cross);
}

#[test]
fn symbol_and_result_text() {
    assert_eq!(PlayerSymbol::Cross.to_string(), "X");
    assert_eq!(PlayerSymbol::Nought.to_string(), "O");
    assert_eq!(
        GameResult::Win(PlayerSymbol::Cross).to_string(),
        "Player X wins"
    );
    assert_eq!(
        GameResult::Win(PlayerSymbol::Nought).to_string(),
        "Player O wins"
    );
    assert_eq!(GameResult::Draw.to_string(), "Draw");
    assert_eq!(GameResult::ViewingPosition.to_string(), "Viewing Position");
}

#[test]
fn board_rendering_of_fresh_game() {
    let game = Game::new();
    let row = "  │   │  ";
    let expected = format!(
        "\n    {r}       Tic Tac Toe    Position ID: NNNNNNNNN/00\n    ──┼───┼──\n    {r}       Turn 0\n    ──┼───┼──       Current player: X\n    {r}       Move (x, y): ",
        r = row
    );
    assert_eq!(game.get_board_formatted(), expected);
}

#[test]
fn game_over_rendering_for_viewing() {
    let mut game = Game::new();
    assert!(game.set_position_id(String::from("NNNNNNNNN/00")).is_ok());
    let row = "  │   │  ";
    let expected = format!(
        "\n{r}       Tic Tac Toe    Position ID: NNNNNNNNN/00\n──┼───┼──\n{r}       Game OVER\n──┼───┼──       Viewing Position\n{r}",
        r = row
    );
    assert_eq!(game.get_game_over_formatted(GameResult::ViewingPosition), expected);
}
