//! A verified core for learning tic-tac-toe by self-play.
//!
//! The crate models the board and its rules, enumerates every position that
//! play can reach, and makes the decisions of a temporal-difference learner:
//! which moves are open, which one is taken, and which value estimates an
//! episode updates. The numeric value table itself belongs to the caller,
//! who hands the learner the order of the estimates as whole-number ranks.
//!
//! - [`rules`]: the game over a mathematical board of nine cells.
//! - [`state`]: a position, and the table of all reachable positions.
//! - [`reach`] and [`table`]: what reachable means, and what the table holds.
//! - [`ai_player`]: a learning agent.
//! - [`ai_game`] and [`human_game`]: a game, advanced move by move.
//!
//! This file holds the rules for a board given as a slice of tiles.

use vstd::prelude::*;
use crate::rules::{
    empty_count, first_won_line, line_sum, line_won, lemma_first_won_line_is,
};

pub mod ai_game;
pub mod ai_player;
pub mod human_game;
pub mod reach;
pub mod rules;
pub mod state;
pub mod table;

verus! {

/// What a cell of the board holds.
#[derive(Debug, Clone, Copy, PartialEq, Eq, Structural)]
pub enum TileState {
    X,
    Empty,
    O,
}

impl TileState {
    /// The cell as a number: `-1` for `X`, `0` for an empty cell, `1` for
    /// `O`, so that a line held by one player sums to `-3` or `3`.
    pub open spec fn signed(self) -> int {
        match self {
            TileState::X => -1,
            TileState::Empty => 0,
            TileState::O => 1,
        }
    }

    /// The cell as a number.
    pub fn to_signed(self) -> (v: i32)
        ensures
            v == self.signed(),
    {
        match self {
            TileState::X => -1,
            TileState::Empty => 0,
            TileState::O => 1,
        }
    }

    /// The cell as it is printed: its letter, or a blank.
    pub fn to_string(&self) -> (s: String)
        ensures
            s@ == (match *self {
                TileState::Empty => " "@,
                TileState::X => "X"@,
                TileState::O => "O"@,
            }),
    {
        match *self {
            TileState::Empty => " ".to_owned(),
            TileState::X => "X".to_owned(),
            TileState::O => "O".to_owned(),
        }
    }
}

/// Where a game stands: whose turn it is, or how it ended.
#[derive(Debug, Clone, Copy, PartialEq, Eq, Structural)]
pub enum GameState {
    P1Turn,
    P2Turn,
    P1Wins,
    P2Wins,
    Draw,
}

impl GameState {
    /// The message that announces this state.
    pub fn to_string(&self) -> (s: String)
        ensures
            s@ == (match *self {
                GameState::P1Turn => "It is Player 1's turn"@,
                GameState::P2Turn => "It is Player 2's turn"@,
                GameState::P1Wins => "Player 1 wins!"@,
                GameState::P2Wins => "Player 2 wins!"@,
                GameState::Draw => "Draw"@,
            }),
    {
        match *self {
            GameState::P1Turn => "It is Player 1's turn".to_owned(),
            GameState::P2Turn => "It is Player 2's turn".to_owned(),
            GameState::P1Wins => "Player 1 wins!".to_owned(),
            GameState::P2Wins => "Player 2 wins!".to_owned(),
            GameState::Draw => "Draw".to_owned(),
        }
    }
}

/// The cells of a board of tiles as numbers.
pub open spec fn tile_values(board: Seq<TileState>) -> Seq<int> {
    Seq::new(board.len(), |k: int| board[k].signed())
}

/// Where the game stands on a board of numbers. The first line that one
/// player holds, in the order in which lines are examined, decides the
/// winner: player 1 plays `-1`. With no such line the game is drawn when no
/// cell is empty; otherwise player 1 moves when the number of empty cells is
/// odd, player 2 when it is even.
pub open spec fn game_state_of(b: Seq<int>) -> GameState {
    let l = first_won_line(b, 0);
    let open = empty_count(b, b.len());
    if l < 8 {
        if line_sum(b, l) == -3 {
            GameState::P1Wins
        } else {
            GameState::P2Wins
        }
    } else if open == 0 {
        GameState::Draw
    } else if open % 2 == 0 {
        GameState::P2Turn
    } else {
        GameState::P1Turn
    }
}

/// Sets `game_state` to where the game stands on `board`.
pub fn update_state(board: &[TileState], game_state: &mut GameState)
    requires
        board@.len() >= 9,
    ensures
        *final(game_state) == game_state_of(tile_values(board@)),
{
    let ghost b = tile_values(board@);
    let mut score: i32;
    let mut i: usize = 0;
    while i < 3
        invariant
            i <= 3,
            board@.len() >= 9,
            b == tile_values(board@),
            forall|l: int| 0 <= l < 2 * i ==> !line_won(b, l),
        decreases 3 - i,
    {
        // the column through cell i
        score = board[i].to_signed() + board[i + 3].to_signed() + board[i + 6].to_signed();
        assert(score == line_sum(b, 2 * i as int));
        if score == -3 {
            proof {
                lemma_first_won_line_is(b, 2 * i as int);
            }
            *game_state = GameState::P1Wins;
            return ;
        } else if score == 3 {
            proof {
                lemma_first_won_line_is(b, 2 * i as int);
            }
            *game_state = GameState::P2Wins;
            return ;
        }
        // the row that starts at cell 3 * i
        score = board[i * 3].to_signed() + board[i * 3 + 1].to_signed() + board[i * 3
            + 2].to_signed();
        assert(score == line_sum(b, 2 * i + 1 as int));
        if score == -3 {
            proof {
                lemma_first_won_line_is(b, 2 * i + 1 as int);
            }
            *game_state = GameState::P1Wins;
            return ;
        } else if score == 3 {
            proof {
                lemma_first_won_line_is(b, 2 * i + 1 as int);
            }
            *game_state = GameState::P2Wins;
            return ;
        }
        i += 1;
    }
    score = board[0].to_signed() + board[4].to_signed() + board[8].to_signed();
    assert(score == line_sum(b, 6));
    if score == -3 {
        proof {
            lemma_first_won_line_is(b, 6);
        }
        *game_state = GameState::P1Wins;
        return ;
    } else if score == 3 {
        proof {
            lemma_first_won_line_is(b, 6);
        }
        *game_state = GameState::P2Wins;
        return ;
    }
    score = board[2].to_signed() + board[4].to_signed() + board[6].to_signed();
    assert(score == line_sum(b, 7));
    if score == -3 {
        proof {
            lemma_first_won_line_is(b, 7);
        }
        *game_state = GameState::P1Wins;
        return ;
    } else if score == 3 {
        proof {
            lemma_first_won_line_is(b, 7);
        }
        *game_state = GameState::P2Wins;
        return ;
    }
    proof {
        lemma_first_won_line_is(b, 8);
    }
    // count the open tiles
    let mut open: usize = 0;
    let mut k: usize = 0;
    while k < board.len()
        invariant
            k <= board@.len(),
            b == tile_values(board@),
            open == empty_count(b, k as nat),
            open <= k,
        decreases board@.len() - k,
    {
        if board[k] == TileState::Empty {
            open += 1;
        }
        k += 1;
    }
    if open == 0 {
        *game_state = GameState::Draw;
    } else if open % 2 == 0 {
        *game_state = GameState::P2Turn;
    } else {
        *game_state = GameState::P1Turn;
    }
}

/// Whether a symbol may be placed at `index`: the index is on the board and
/// the cell is empty.
pub fn move_is_valid(board: &[TileState], index: usize) -> (valid: bool)
    requires
        index <= 8 ==> index < board@.len(),
    ensures
        valid == (index <= 8 && board@[index as int] == TileState::Empty),
{
    if index > 8 {
        return false;
    }
    board[index] == TileState::Empty
}

/// The symbol of the other player; an empty cell has no opponent and stays
/// empty.
pub fn opposite_tile_state(tile: TileState) -> (other: TileState)
    ensures
        other.signed() == -tile.signed(),
{
    match tile {
        TileState::X => TileState::O,
        TileState::Empty => TileState::Empty,
        TileState::O => TileState::X,
    }
}

} // verus!
