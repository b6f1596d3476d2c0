//! One game between a person and a learning agent, advanced move by move.

use vstd::prelude::*;
use crate::{TileState, opposite_tile_state};
use crate::ai_player::{AiPlayer, open_moves, flagged, all_reachable};
use crate::reach::{
    reachable, to_move, mark_count, lemma_child_reachable, lemma_empty_board_open,
};
use crate::rules::{valid_board, empty_board, board_terminal, board_winner};
use crate::state::{State, StateError};

verus! {

/// The number that stands for a tile on a position: `1` for `X`, who opens,
/// `-1` for `O` and `0` for an empty cell.
pub open spec fn symbol_of(tile: TileState) -> int {
    match tile {
        TileState::X => 1,
        TileState::Empty => 0,
        TileState::O => -1,
    }
}

/// The tile that a number on a position stands for.
pub open spec fn tile_of(symbol: int) -> TileState {
    if symbol == 1 {
        TileState::X
    } else if symbol == -1 {
        TileState::O
    } else {
        TileState::Empty
    }
}

/// The number that stands for `tile` on a position.
pub fn tile_symbol(tile: TileState) -> (symbol: isize)
    ensures
        symbol == symbol_of(tile),
{
    match tile {
        TileState::X => 1,
        TileState::Empty => 0,
        TileState::O => -1,
    }
}

/// The tile that `symbol` stands for.
pub fn symbol_tile(symbol: isize) -> (tile: TileState)
    ensures
        tile == tile_of(symbol as int),
{
    if symbol == 1 {
        TileState::X
    } else if symbol == -1 {
        TileState::O
    } else {
        TileState::Empty
    }
}

/// A game between a person and an agent: the position, the tile to move,
/// the agent, and the tile that the person plays. `X` opens.
#[derive(Debug)]
pub struct HumanGame {
    current_state: State,
    current_symbol: TileState,
    ai_player: AiPlayer,
    human_symbol: TileState,
}

impl HumanGame {
    /// The position on the board.
    pub closed spec fn state(&self) -> Seq<int> {
        self.current_state@
    }

    /// The tile to move.
    pub closed spec fn turn(&self) -> TileState {
        self.current_symbol
    }

    /// The tile that the person plays.
    pub closed spec fn human(&self) -> TileState {
        self.human_symbol
    }

    /// The agent.
    pub closed spec fn agent(&self) -> AiPlayer {
        self.ai_player
    }

    /// The person plays `X` or `O`, the agent the other of the two, and one
    /// of the two is to move.
    pub open spec fn wf(&self) -> bool {
        &&& valid_board(self.state())
        &&& self.human() != TileState::Empty
        &&& self.turn() != TileState::Empty
        &&& self.agent().symbol() == -symbol_of(self.human())
    }

    /// The agent has seen the position on the board last.
    pub open spec fn synced(&self) -> bool {
        &&& self.agent().trace().len() > 0
        &&& self.agent().trace().last().0 == self.state()
    }

    /// The game has been played by the rules: the position can be reached
    /// by play, as can every position that the agent has seen, and the tile
    /// to move is the one whose turn it is on the position.
    pub open spec fn on_course(&self) -> bool {
        &&& reachable(self.state())
        &&& symbol_of(self.turn()) == to_move(self.state())
        &&& all_reachable(self.agent().trace())
    }

    /// A game on the empty board in which the person plays `human_symbol`
    /// and a fresh agent the other tile. `X` is to move.
    pub fn new(human_symbol: TileState) -> (game: Self)
        ensures
            game.state() == empty_board(),
            game.turn() == TileState::X,
            game.human() == human_symbol,
            game.agent().symbol() == -symbol_of(human_symbol),
            game.agent().trace() == Seq::<(Seq<int>, bool)>::empty(),
            human_symbol != TileState::Empty ==> game.wf(),
            game.on_course(),
    {
        proof {
            lemma_empty_board_open();
        }
        let mut ai_player = AiPlayer::default();
        ai_player.set_symbol(tile_symbol(opposite_tile_state(human_symbol)));
        let game = Self {
            current_state: State::new(),
            current_symbol: TileState::X,
            ai_player: ai_player,
            human_symbol: human_symbol,
        };
        proof {
            use_type_invariant(&game.current_state);
        }
        game
    }

    /// Shows the agent the position on the board, as at the start of play.
    pub fn start(&mut self)
        ensures
            final(self).state() == old(self).state(),
            final(self).turn() == old(self).turn(),
            final(self).human() == old(self).human(),
            final(self).agent().symbol() == old(self).agent().symbol(),
            final(self).agent().trace() == old(self).agent().trace().push((old(self).state(), true)),
            final(self).synced(),
            old(self).wf() ==> final(self).wf(),
            old(self).on_course() ==> final(self).on_course(),
    {
        self.ai_player.set_state(&self.current_state);
    }

    /// Whether the game is over.
    pub fn is_end(&self) -> (end: bool)
        ensures
            end == board_terminal(self.state()),
    {
        self.current_state.is_end()
    }

    /// The tile of the winner, or the empty tile when nobody has won.
    pub fn get_winner(&self) -> (winner: TileState)
        ensures
            winner == tile_of(board_winner(self.state())),
    {
        symbol_tile(self.current_state.get_winner())
    }

    /// The name under which the estimates of the agent are stored.
    pub fn policy_file(&self) -> (name: &'static str)
        ensures
            name@ == (if self.agent().symbol() == 1 {
                "policy_first.bin"@
            } else {
                "policy_second.bin"@
            }),
    {
        self.ai_player.policy_file()
    }

    /// Whether the person is to move.
    pub fn human_to_move(&self) -> (human: bool)
        ensures
            human == (self.turn() == self.human()),
    {
        self.current_symbol == self.human_symbol
    }

    /// The position on the board.
    pub fn get_state(&self) -> (state: State)
        ensures
            state@ == self.state(),
    {
        self.current_state
    }

    /// The tile in cell `i`.
    pub fn get_tile(&self, i: usize) -> (tile: Result<TileState, StateError>)
        ensures
            i < 9 ==> tile == Ok::<TileState, StateError>(tile_of(self.state()[i as int])),
            i >= 9 ==> tile == Err::<TileState, StateError>(StateError::IndexOutOfRange),
    {
        match self.current_state.get_tile(i) {
            Ok(symbol) => Ok(symbol_tile(symbol)),
            Err(e) => Err(e),
        }
    }

    /// Whether a tile may be placed at `index`: the index is on the board
    /// and the cell is empty.
    pub fn move_is_valid(&self, index: usize) -> (valid: bool)
        ensures
            valid == (index <= 8 && self.state()[index as int] == 0),
    {
        if index > 8 {
            return false;
        }
        match self.current_state.get_tile(index) {
            Ok(symbol) => symbol == 0,
            Err(_) => false,
        }
    }

    /// The moves open to the agent: each empty cell, in ascending order,
    /// with the identity of the position that taking it leads to.
    pub fn next_moves(&self) -> (moves: Vec<(usize, isize)>)
        requires
            self.wf(),
            self.synced(),
        ensures
            moves@ == open_moves(self.state(), self.agent().symbol() as int, 9),
    {
        self.ai_player.next_moves()
    }

    /// The person's move: the tile to move is placed at `index`, the agent
    /// sees the new position, and the turn passes to the other tile. A move
    /// that the board does not take changes nothing.
    pub fn place(&mut self, index: usize) -> (placed: Result<(), StateError>)
        requires
            old(self).wf(),
        ensures
            final(self).wf(),
            final(self).human() == old(self).human(),
            final(self).agent().symbol() == old(self).agent().symbol(),
            index >= 9 ==> placed == Err::<(), StateError>(StateError::IndexOutOfRange),
            index < 9 && old(self).state()[index as int] != 0 ==> placed == Err::<(), StateError>(
                StateError::Occupied,
            ),
            index < 9 && old(self).state()[index as int] == 0 ==> placed is Ok,
            placed is Ok ==> final(self).state() == old(self).state().update(
                index as int,
                symbol_of(old(self).turn()),
            ),
            placed is Ok ==> final(self).turn() == tile_of(-symbol_of(old(self).turn())),
            placed is Ok ==> final(self).agent().trace() == old(self).agent().trace().push(
                (final(self).state(), true),
            ),
            placed is Ok ==> final(self).synced(),
            placed is Err ==> final(self).state() == old(self).state(),
            placed is Err ==> final(self).turn() == old(self).turn(),
            placed is Err ==> final(self).agent().trace() == old(self).agent().trace(),
            placed is Ok && old(self).on_course() && !board_terminal(old(self).state())
                ==> final(self).on_course() && mark_count(final(self).state()) == mark_count(
                old(self).state(),
            ) + 1,
    {
        proof {
            if index < 9 && self.on_course() && !board_terminal(self.state()) && self.state()[index as int]
                == 0 {
                lemma_child_reachable(self.state(), index as int);
            }
        }
        match self.current_state.get_next_state(index, tile_symbol(self.current_symbol)) {
            Ok(next) => {
                proof {
                    use_type_invariant(&next);
                }
                self.current_state = next;
                self.ai_player.set_state(&self.current_state);
                self.alternate();
                Ok(())
            },
            Err(e) => Err(e),
        }
    }

    /// The agent's move: it picks a cell as `AiPlayer::act` does, the tile
    /// to move is placed there, the agent sees the new position, and the
    /// turn passes to the other tile. `ranks` holds the rank of each open
    /// move, in the order of `next_moves`.
    pub fn reply(&mut self, explore: bool, ranks: &Vec<u64>) -> (index: usize)
        requires
            old(self).wf(),
            old(self).synced(),
            old(self).turn() != old(self).human(),
            ranks@.len() == open_moves(
                old(self).state(),
                old(self).agent().symbol() as int,
                9,
            ).len(),
            ranks@.len() > 0,
        ensures
            final(self).wf(),
            final(self).synced(),
            final(self).human() == old(self).human(),
            final(self).agent().symbol() == old(self).agent().symbol(),
            index < 9,
            old(self).state()[index as int] == 0,
            exists|k: int|
                0 <= k < ranks@.len() && index == (#[trigger] open_moves(
                    old(self).state(),
                    old(self).agent().symbol() as int,
                    9,
                )[k]).0 && (!explore ==> forall|j: int|
                    0 <= j < ranks@.len() ==> #[trigger] ranks@[j] <= ranks@[k]),
            final(self).state() == old(self).state().update(
                index as int,
                old(self).agent().symbol() as int,
            ),
            final(self).turn() == old(self).human(),
            final(self).agent().trace() == flagged(old(self).agent().trace(), explore).push(
                (final(self).state(), true),
            ),
            old(self).on_course() && !board_terminal(old(self).state()) ==> final(self).on_course()
                && mark_count(final(self).state()) == mark_count(old(self).state()) + 1,
    {
        proof {
            if self.on_course() && !board_terminal(self.state()) {
                assert forall|i: int| 0 <= i < 9 && self.state()[i] == 0 implies reachable(
                    #[trigger] self.state().update(i, symbol_of(self.turn())),
                ) && to_move(self.state().update(i, symbol_of(self.turn()))) == -symbol_of(
                    self.turn(),
                ) && mark_count(self.state().update(i, symbol_of(self.turn()))) == mark_count(
                    self.state(),
                ) + 1 by {
                    lemma_child_reachable(self.state(), i);
                }
            }
        }
        let index = self.ai_player.act(explore, ranks);
        if let Ok(next) = self.current_state.get_next_state(
            index,
            tile_symbol(self.current_symbol),
        ) {
            proof {
                use_type_invariant(&next);
            }
            self.current_state = next;
            self.ai_player.set_state(&self.current_state);
            self.alternate();
        }
        index
    }

    /// Passes the turn to the other tile.
    fn alternate(&mut self)
        ensures
            final(self).current_symbol == tile_of(-symbol_of(old(self).current_symbol)),
            final(self).current_state == old(self).current_state,
            final(self).ai_player == old(self).ai_player,
            final(self).human_symbol == old(self).human_symbol,
    {
        self.current_symbol = opposite_tile_state(self.current_symbol);
    }
}

} // verus!
