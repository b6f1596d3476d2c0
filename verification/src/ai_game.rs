//! One game between two learning agents, advanced move by move.

use vstd::prelude::*;
use crate::ai_player::{AiPlayer, TdStep, open_moves, backup_steps, flagged, all_reachable};
use crate::reach::{
    reachable, to_move, mark_count, lemma_child_reachable, lemma_empty_board_open,
};
use crate::rules::{valid_board, empty_board, board_terminal, board_winner};
use crate::state::State;

verus! {

/// A game between two agents: the position, the symbol to move, and the
/// agents, of which the first plays `1` and opens.
#[derive(Debug)]
pub struct AiGame {
    current_state: State,
    current_symbol: isize,
    player1: AiPlayer,
    player2: AiPlayer,
}

impl AiGame {
    /// The position on the board.
    pub closed spec fn state(&self) -> Seq<int> {
        self.current_state@
    }

    /// The symbol to move.
    pub closed spec fn turn(&self) -> isize {
        self.current_symbol
    }

    /// The agent that opens.
    pub closed spec fn first(&self) -> AiPlayer {
        self.player1
    }

    /// The agent that moves second.
    pub closed spec fn second(&self) -> AiPlayer {
        self.player2
    }

    /// The agents hold their symbols, `1` and `-1`, and one of the two is to
    /// move.
    pub open spec fn wf(&self) -> bool {
        &&& valid_board(self.state())
        &&& self.first().symbol() == 1
        &&& self.second().symbol() == -1
        &&& self.turn() == 1 || self.turn() == -1
    }

    /// Both agents have seen the position on the board last.
    pub open spec fn synced(&self) -> bool {
        &&& self.first().trace().len() > 0
        &&& self.first().trace().last().0 == self.state()
        &&& self.second().trace().len() > 0
        &&& self.second().trace().last().0 == self.state()
    }

    /// The game has been played by the rules: the position can be reached
    /// by play, as can every position that the agents have seen, and the
    /// symbol to move is the one whose turn it is on the position.
    pub open spec fn on_course(&self) -> bool {
        &&& reachable(self.state())
        &&& self.turn() == to_move(self.state())
        &&& all_reachable(self.first().trace())
        &&& all_reachable(self.second().trace())
    }

    /// A game on the empty board: the agents get their symbols, the first
    /// one is to move, and both see the empty board.
    pub fn new(player1: AiPlayer, player2: AiPlayer) -> (game: Self)
        ensures
            game.wf(),
            game.synced(),
            game.state() == empty_board(),
            game.turn() == 1,
            game.first().trace() == player1.trace().push((empty_board(), true)),
            game.second().trace() == player2.trace().push((empty_board(), true)),
            all_reachable(player1.trace()) && all_reachable(player2.trace()) ==> game.on_course(),
    {
        proof {
            lemma_empty_board_open();
        }
        let mut game = Self {
            current_state: State::new(),
            current_symbol: 1,
            player1: player1,
            player2: player2,
        };
        proof {
            use_type_invariant(&game.current_state);
        }
        game.player1.set_symbol(1);
        game.player2.set_symbol(-1);
        game.player1.set_state(&game.current_state);
        game.player2.set_state(&game.current_state);
        game
    }

    /// Whether the game is over.
    pub fn is_end(&self) -> (end: bool)
        ensures
            end == board_terminal(self.state()),
    {
        self.current_state.is_end()
    }

    /// The winner: `1` or `-1`, or `0` when nobody has won.
    pub fn get_winner(&self) -> (winner: isize)
        ensures
            winner == board_winner(self.state()),
    {
        self.current_state.get_winner()
    }

    /// The symbol to move.
    pub fn get_symbol(&self) -> (symbol: isize)
        ensures
            symbol == self.turn(),
    {
        self.current_symbol
    }

    /// The position on the board.
    pub fn get_state(&self) -> (state: State)
        ensures
            state@ == self.state(),
    {
        self.current_state
    }

    /// The moves open to the agent that is to move: each empty cell, in
    /// ascending order, with the identity of the position that taking it
    /// leads to.
    pub fn next_moves(&self) -> (moves: Vec<(usize, isize)>)
        requires
            self.wf(),
            self.synced(),
        ensures
            moves@ == open_moves(self.state(), self.turn() as int, 9),
    {
        if self.current_symbol == 1 {
            self.player1.next_moves()
        } else {
            self.player2.next_moves()
        }
    }

    /// One move of the game: the agent to move picks a cell as
    /// `AiPlayer::act` does, its symbol is placed there, both agents see the
    /// new position, and the turn passes to the other symbol. `ranks` holds
    /// the rank of each open move, in the order of `next_moves`.
    pub fn advance(&mut self, explore: bool, ranks: &Vec<u64>) -> (index: usize)
        requires
            old(self).wf(),
            old(self).synced(),
            ranks@.len() == open_moves(old(self).state(), old(self).turn() as int, 9).len(),
            ranks@.len() > 0,
        ensures
            final(self).wf(),
            final(self).synced(),
            index < 9,
            old(self).state()[index as int] == 0,
            exists|k: int|
                0 <= k < ranks@.len() && index == (#[trigger] open_moves(
                    old(self).state(),
                    old(self).turn() as int,
                    9,
                )[k]).0 && (!explore ==> forall|j: int|
                    0 <= j < ranks@.len() ==> #[trigger] ranks@[j] <= ranks@[k]),
            final(self).state() == old(self).state().update(index as int, old(self).turn() as int),
            final(self).turn() == -old(self).turn(),
            final(self).first().trace() == flagged(
                old(self).first().trace(),
                explore && old(self).turn() == 1,
            ).push((final(self).state(), true)),
            final(self).second().trace() == flagged(
                old(self).second().trace(),
                explore && old(self).turn() == -1,
            ).push((final(self).state(), true)),
            old(self).on_course() && !board_terminal(old(self).state()) ==> final(self).on_course()
                && mark_count(final(self).state()) == mark_count(old(self).state()) + 1,
    {
        proof {
            if self.on_course() && !board_terminal(self.state()) {
                assert forall|i: int| 0 <= i < 9 && self.state()[i] == 0 implies reachable(
                    #[trigger] self.state().update(i, self.turn() as int),
                ) && to_move(self.state().update(i, self.turn() as int)) == -self.turn()
                    && mark_count(self.state().update(i, self.turn() as int)) == mark_count(
                    self.state(),
                ) + 1 by {
                    lemma_child_reachable(self.state(), i);
                }
            }
        }
        let index = if self.current_symbol == 1 {
            self.player1.act(explore, ranks)
        } else {
            self.player2.act(explore, ranks)
        };
        if let Ok(next) = self.current_state.get_next_state(index, self.current_symbol) {
            proof {
                use_type_invariant(&next);
            }
            self.current_state = next;
            self.player1.set_state(&self.current_state);
            self.player2.set_state(&self.current_state);
            self.alternate();
        }
        index
    }

    /// Back to the empty board: the agents forget the episode and see the
    /// empty board, and the first one is to move.
    pub fn reset(&mut self)
        requires
            old(self).wf(),
        ensures
            final(self).wf(),
            final(self).synced(),
            final(self).state() == empty_board(),
            final(self).turn() == 1,
            final(self).first().trace() == Seq::<(Seq<int>, bool)>::empty().push(
                (empty_board(), true),
            ),
            final(self).second().trace() == Seq::<(Seq<int>, bool)>::empty().push(
                (empty_board(), true),
            ),
            final(self).on_course(),
    {
        proof {
            lemma_empty_board_open();
        }
        self.current_state = State::new();
        proof {
            use_type_invariant(&self.current_state);
        }
        self.current_symbol = 1;
        self.player1.reset();
        self.player2.reset();
        self.player1.set_state(&self.current_state);
        self.player2.set_state(&self.current_state);
    }

    /// The updates that the episode calls for, those of the first agent and
    /// those of the second. Both agents forget the episode.
    pub fn backup(&mut self) -> (steps: (Vec<TdStep>, Vec<TdStep>))
        ensures
            steps.0@ == backup_steps(old(self).first().trace()),
            steps.1@ == backup_steps(old(self).second().trace()),
            old(self).wf() ==> final(self).wf(),
            old(self).on_course() ==> final(self).on_course(),
            final(self).state() == old(self).state(),
            final(self).turn() == old(self).turn(),
            final(self).first().symbol() == old(self).first().symbol(),
            final(self).second().symbol() == old(self).second().symbol(),
            final(self).first().trace() == Seq::<(Seq<int>, bool)>::empty(),
            final(self).second().trace() == Seq::<(Seq<int>, bool)>::empty(),
    {
        let first = self.player1.backup();
        let second = self.player2.backup();
        (first, second)
    }

    /// The name under which the estimates of the agent `symbol` are stored.
    pub fn policy_file(&self, symbol: isize) -> (name: &'static str)
        requires
            self.wf(),
        ensures
            name@ == (if symbol == 1 {
                "policy_first.bin"@
            } else {
                "policy_second.bin"@
            }),
    {
        if symbol == 1 {
            self.player1.policy_file()
        } else {
            self.player2.policy_file()
        }
    }

    /// Passes the turn to the other symbol.
    fn alternate(&mut self)
        requires
            old(self).current_symbol == 1 || old(self).current_symbol == -1,
        ensures
            final(self).current_symbol == -old(self).current_symbol,
            final(self).current_state == old(self).current_state,
            final(self).player1 == old(self).player1,
            final(self).player2 == old(self).player2,
    {
        self.current_symbol = self.current_symbol * -1;
    }
}

} // verus!
