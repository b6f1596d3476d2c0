use tictactoe::state::{get_all_states, State, StateError, BOARD_SIZE};

fn position(cells: [isize; 9]) -> State {
    let mut state = State::new();
    for (i, &symbol) in cells.iter().enumerate() {
        if symbol != 0 {
            state = state.get_next_state(i, symbol).unwrap();
        }
    }
    state
}

fn base3(cells: [isize; 9]) -> isize {
    let mut hash = 0;
    for symbol in cells {
        hash = hash * 3 + symbol + 1;
    }
    hash
}

fn cells_of_hash(hash: isize) -> [isize; 9] {
    let mut cells = [0; 9];
    let mut rest = hash;
    for k in (0..9).rev() {
        cells[k] = rest % 3 - 1;
        rest /= 3;
    }
    cells
}

#[test]
fn board_has_nine_cells() {
    assert_eq!(BOARD_SIZE, 9);
}

#[test]
fn new_position_is_empty_and_open() {
    let state = State::new();
    for i in 0..9 {
        assert_eq!(state.get_tile(i), Ok(0));
    }
    assert!(!state.is_end());
    assert_eq!(state.get_winner(), 0);
    assert_eq!(state.get_hash(), 9841);
}

#[test]
fn hash_is_the_base_three_numeral() {
    assert_eq!(position([1, 0, 0, 0, 0, 0, 0, 0, 0]).get_hash(), 16402);
    assert_eq!(position([0, 0, 0, 0, 1, 0, 0, 0, 0]).get_hash(), 9922);
    assert_eq!(position([1, -1, -1, 1, 0, -1, 1, 0, 0]).get_hash(), 13711);
    assert_eq!(position([-1, -1, -1, 1, 0, -1, 1, 0, 0]).get_hash(), 589);
    assert_eq!(position([-1; 9]).get_hash(), 0);
    assert_eq!(position([1; 9]).get_hash(), 19682);
}

#[test]
fn boards_that_differ_in_one_cell_have_different_hashes() {
    let base = [1, -1, 0, 0, 1, 0, -1, 0, 0];
    let base_hash = position(base).get_hash();
    for i in 0..9 {
        for symbol in [-1, 0, 1] {
            if base[i] != symbol {
                let mut other = base;
                other[i] = symbol;
                assert_ne!(position(other).get_hash(), base_hash);
            }
        }
    }
}

#[test]
fn every_board_has_its_own_hash() {
    let mut seen = vec![false; 19683];
    for code in 0..19683 {
        let cells = cells_of_hash(code);
        let hash = position(cells).get_hash();
        assert_eq!(hash, base3(cells));
        assert_eq!(hash, code);
        assert!(!seen[hash as usize]);
        seen[hash as usize] = true;
    }
}

#[test]
fn equal_positions_have_equal_hashes() {
    let a = State::new().get_next_state(0, 1).unwrap().get_next_state(4, -1).unwrap();
    let b = State::new().get_next_state(4, -1).unwrap().get_next_state(0, 1).unwrap();
    assert_eq!(a, b);
    assert_eq!(a.get_hash(), b.get_hash());
    let c = State::new().get_next_state(0, -1).unwrap().get_next_state(4, 1).unwrap();
    assert_ne!(a, c);
    assert_ne!(a.get_hash(), c.get_hash());
}

#[test]
fn column_of_the_first_player_wins() {
    let state = position([1, -1, -1, 1, 0, -1, 1, 0, 0]);
    assert!(state.is_end());
    assert_eq!(state.get_winner(), 1);
}

#[test]
fn row_of_the_second_player_wins() {
    let state = position([-1, -1, -1, 1, 0, -1, 1, 0, 0]);
    assert!(state.is_end());
    assert_eq!(state.get_winner(), -1);
}

#[test]
fn diagonals_win() {
    let state = position([1, -1, 0, -1, 1, 0, 0, 0, 1]);
    assert!(state.is_end());
    assert_eq!(state.get_winner(), 1);
    let state = position([1, 1, -1, 0, -1, 0, -1, 0, 1]);
    assert!(state.is_end());
    assert_eq!(state.get_winner(), -1);
}

#[test]
fn full_board_without_a_line_is_a_draw() {
    let state = position([1, -1, 1, 1, -1, -1, -1, 1, 1]);
    assert!(state.is_end());
    assert_eq!(state.get_winner(), 0);
    assert_eq!(state.get_hash(), 15074);
}

#[test]
fn open_board_without_a_line_goes_on() {
    let state = position([1, -1, 1, 1, -1, -1, -1, 1, 0]);
    assert!(!state.is_end());
    assert_eq!(state.get_winner(), 0);
}

#[test]
fn first_line_examined_decides_on_a_position() {
    // column 0 to -1 and column 1 to 1: column 0 is examined first
    let state = position([-1, 1, 0, -1, 1, 0, -1, 1, 0]);
    assert!(state.is_end());
    assert_eq!(state.get_winner(), -1);
    // row 0 to 1 and row 2 to -1: row 0 is examined first
    let state = position([1, 1, 1, 0, 0, 0, -1, -1, -1]);
    assert_eq!(state.get_winner(), 1);
}

#[test]
fn move_places_the_symbol_and_leaves_the_parent_alone() {
    let parent = State::new();
    let next = parent.get_next_state(4, 1).unwrap();
    assert_eq!(next.get_tile(4), Ok(1));
    assert_eq!(parent.get_tile(4), Ok(0));
    for i in 0..9 {
        if i != 4 {
            assert_eq!(next.get_tile(i), Ok(0));
        }
    }
    assert_eq!(next.get_hash(), 9922);
}

#[test]
fn tile_outside_the_board_is_an_error() {
    let state = State::new();
    assert_eq!(state.get_tile(9), Err(StateError::IndexOutOfRange));
    assert_eq!(state.get_tile(usize::MAX), Err(StateError::IndexOutOfRange));
    assert_eq!(state.get_tile(8), Ok(0));
}

#[test]
fn move_outside_the_board_is_rejected() {
    let state = State::new();
    assert_eq!(state.get_next_state(9, 1), Err(StateError::IndexOutOfRange));
    assert_eq!(state.get_next_state(9, 5), Err(StateError::IndexOutOfRange));
}

#[test]
fn move_with_an_unknown_symbol_is_rejected() {
    let state = State::new();
    assert_eq!(state.get_next_state(0, 0), Err(StateError::InvalidSymbol));
    assert_eq!(state.get_next_state(0, 2), Err(StateError::InvalidSymbol));
    assert_eq!(state.get_next_state(0, isize::MIN), Err(StateError::InvalidSymbol));
}

#[test]
fn move_to_an_occupied_cell_is_rejected() {
    // A move needs an empty cell: the position does not overwrite.
    let state = State::new().get_next_state(4, 1).unwrap();
    assert_eq!(state.get_next_state(4, -1), Err(StateError::Occupied));
    assert_eq!(state.get_next_state(4, 1), Err(StateError::Occupied));
    assert_eq!(state.get_tile(4), Ok(1));
}

#[test]
fn cells_are_shown_as_letters() {
    let state = position([1, -1, 0, 0, 1, 0, -1, 0, 0]);
    assert_eq!(state.chars(), ['X', 'O', ' ', ' ', 'X', ' ', 'O', ' ', ' ']);
}

#[test]
fn enumeration_holds_every_reachable_position_once() {
    let all_states = get_all_states();
    assert_eq!(all_states.len(), 5478);
    assert_eq!(all_states.get(&9841), Some(&(false, 0)));
    let over = all_states.values().filter(|outcome| outcome.0).count();
    let first = all_states.values().filter(|outcome| **outcome == (true, 1)).count();
    let second = all_states.values().filter(|outcome| **outcome == (true, -1)).count();
    let drawn = all_states.values().filter(|outcome| **outcome == (true, 0)).count();
    assert_eq!(over, 958);
    assert_eq!(first, 626);
    assert_eq!(second, 316);
    assert_eq!(drawn, 16);
}

#[test]
fn enumeration_records_the_outcome_of_each_position() {
    let all_states = get_all_states();
    for (&hash, &(end, winner)) in all_states.iter() {
        let state = position(cells_of_hash(hash));
        assert_eq!(state.get_hash(), hash);
        assert_eq!(state.is_end(), end);
        assert_eq!(state.get_winner(), winner);
        if !end {
            assert_eq!(winner, 0);
        }
    }
}

#[test]
fn enumeration_holds_no_illegal_board() {
    let all_states = get_all_states();
    for &hash in all_states.keys() {
        let cells = cells_of_hash(hash);
        let first = cells.iter().filter(|&&symbol| symbol == 1).count();
        let second = cells.iter().filter(|&&symbol| symbol == -1).count();
        assert!(first == second || first == second + 1);
    }
    // the second player cannot have moved first
    assert!(!all_states.contains_key(&base3([-1, 0, 0, 0, 0, 0, 0, 0, 0])));
    // nobody moves after a win
    assert!(!all_states.contains_key(&base3([1, 1, 1, -1, -1, -1, 0, 0, 0])));
}

#[test]
fn enumeration_is_closed_under_legal_moves() {
    let all_states = get_all_states();
    for (&hash, &(end, _)) in all_states.iter() {
        if end {
            continue;
        }
        let cells = cells_of_hash(hash);
        let marks = cells.iter().filter(|&&symbol| symbol != 0).count();
        let symbol = if marks % 2 == 0 { 1 } else { -1 };
        let state = position(cells);
        for i in 0..9 {
            if cells[i] == 0 {
                let next = state.get_next_state(i, symbol).unwrap();
                assert!(all_states.contains_key(&next.get_hash()));
            }
        }
    }
}

#[test]
fn enumeration_follows_a_game() {
    let all_states = get_all_states();
    let moves = [4, 0, 8, 2, 1, 7, 3, 5, 6];
    let mut state = State::new();
    let mut symbol = 1;
    for i in moves {
        assert_eq!(all_states.get(&state.get_hash()), Some(&(false, 0)));
        state = state.get_next_state(i, symbol).unwrap();
        symbol = -symbol;
    }
    assert_eq!(all_states.get(&state.get_hash()), Some(&(true, 0)));
}
