use tictactoe::TileState::{Empty, O, X};
use tictactoe::{move_is_valid, opposite_tile_state, update_state, GameState, TileState};

#[test]
fn test_vert_win() {
    let mut game_state: GameState = GameState::P1Turn;
    let board = [X, O, O, X, Empty, O, X, Empty, Empty];
    update_state(&board, &mut game_state);
    assert_eq!(game_state, GameState::P1Wins);
}

#[test]
fn test_horiz_win() {
    let mut game_state: GameState = GameState::P1Turn;
    let board = [O, O, O, X, Empty, O, X, Empty, Empty];
    update_state(&board, &mut game_state);
    assert_eq!(game_state, GameState::P2Wins);
}

#[test]
fn test_diag_win() {
    let mut game_state: GameState = GameState::P1Turn;
    let board = [O, X, Empty, X, O, O, X, Empty, O];
    update_state(&board, &mut game_state);
    assert_eq!(game_state, GameState::P2Wins);
}

#[test]
fn test_draw() {
    let mut game_state: GameState = GameState::P1Turn;
    let board = [O, X, O, X, X, O, X, O, X];
    update_state(&board, &mut game_state);
    assert_eq!(game_state, GameState::Draw);
}

#[test]
fn test_p1_turn() {
    let mut game_state: GameState = GameState::P1Turn;
    let board = [O, X, O, X, X, O, X, O, Empty];
    update_state(&board, &mut game_state);
    assert_eq!(game_state, GameState::P1Turn);
}

#[test]
fn test_p2_turn() {
    let mut game_state: GameState = GameState::Draw;
    let board = [O, X, O, X, X, O, X, Empty, Empty];
    update_state(&board, &mut game_state);
    assert_eq!(game_state, GameState::P2Turn);
}

#[test]
fn empty_board_is_player_one_to_move() {
    let mut game_state = GameState::Draw;
    let board = [TileState::Empty; 9];
    update_state(&board, &mut game_state);
    assert_eq!(game_state, GameState::P1Turn);
}

#[test]
fn tiles_beyond_the_ninth_count_as_open_or_taken() {
    let mut game_state = GameState::P1Turn;
    let board = [O, X, O, X, X, O, X, O, X, Empty];
    update_state(&board, &mut game_state);
    assert_eq!(game_state, GameState::P1Turn);
    let board = [O, X, O, X, X, O, X, O, Empty, Empty, X];
    update_state(&board, &mut game_state);
    assert_eq!(game_state, GameState::P2Turn);
    assert!(move_is_valid(&board, 8));
    assert!(!move_is_valid(&board, 9));
}

#[test]
fn anti_diagonal_win_for_x() {
    let mut game_state = GameState::P1Turn;
    let board = [O, O, X, Empty, X, Empty, X, Empty, O];
    update_state(&board, &mut game_state);
    assert_eq!(game_state, GameState::P1Wins);
}

#[test]
fn first_line_examined_decides_between_two_winners() {
    // No game produces a board on which both players hold a line. The line
    // that is examined first decides: columns and rows alternate, left to
    // right and top to bottom.
    let mut game_state = GameState::P1Turn;
    // column 0 to O, column 1 to X
    let board = [O, X, Empty, O, X, Empty, O, X, Empty];
    update_state(&board, &mut game_state);
    assert_eq!(game_state, GameState::P2Wins);
    // column 0 to X, column 1 to O
    let board = [X, O, Empty, X, O, Empty, X, O, Empty];
    update_state(&board, &mut game_state);
    assert_eq!(game_state, GameState::P1Wins);
    // row 0 to O, row 2 to X
    let board = [O, O, O, Empty, Empty, Empty, X, X, X];
    update_state(&board, &mut game_state);
    assert_eq!(game_state, GameState::P2Wins);
    // row 1 to X, row 2 to O
    let board = [Empty, Empty, Empty, X, X, X, O, O, O];
    update_state(&board, &mut game_state);
    assert_eq!(game_state, GameState::P1Wins);
}

#[test]
fn full_board_with_a_line_is_a_win_not_a_draw() {
    let mut game_state = GameState::P1Turn;
    let board = [X, X, X, O, O, X, X, O, O];
    update_state(&board, &mut game_state);
    assert_eq!(game_state, GameState::P1Wins);
}

#[test]
fn move_is_valid_on_empty_cells_only() {
    let board = [O, X, O, X, X, O, X, Empty, Empty];
    assert!(move_is_valid(&board, 7));
    assert!(move_is_valid(&board, 8));
    assert!(!move_is_valid(&board, 0));
    assert!(!move_is_valid(&board, 4));
    assert!(!move_is_valid(&board, 9));
    assert!(!move_is_valid(&board, usize::MAX));
}

#[test]
fn opposite_tile_swaps_the_players() {
    assert_eq!(opposite_tile_state(TileState::X), TileState::O);
    assert_eq!(opposite_tile_state(TileState::O), TileState::X);
    assert_eq!(opposite_tile_state(TileState::Empty), TileState::Empty);
}

#[test]
fn tiles_as_numbers() {
    assert_eq!(TileState::X.to_signed(), -1);
    assert_eq!(TileState::Empty.to_signed(), 0);
    assert_eq!(TileState::O.to_signed(), 1);
}

#[test]
fn tiles_and_game_states_as_text() {
    assert_eq!(TileState::X.to_string(), "X");
    assert_eq!(TileState::O.to_string(), "O");
    assert_eq!(TileState::Empty.to_string(), " ");
    assert_eq!(GameState::P1Turn.to_string(), "It is Player 1's turn");
    assert_eq!(GameState::P2Turn.to_string(), "It is Player 2's turn");
    assert_eq!(GameState::P1Wins.to_string(), "Player 1 wins!");
    assert_eq!(GameState::P2Wins.to_string(), "Player 2 wins!");
    assert_eq!(GameState::Draw.to_string(), "Draw");
}
