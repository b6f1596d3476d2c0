//! One position of the game, with its identity and its outcome kept in step
//! with its cells.

use std::collections::HashMap;
use vstd::prelude::*;
use vstd::std_specs::hash::group_hash_axioms;
use crate::rules::{
    valid_board, empty_board, hash_prefix, pow3, board_hash, empty_count, line_won, line_sum,
    board_terminal, board_winner, lemma_hash_prefix_bound, lemma_hash_range, lemma_hash_unique,
    lemma_first_won_line_is,
};
use crate::reach::{
    reachable, mark_count, to_move, child, lemma_child_reachable, lemma_empty_board_open,
};
use crate::table::{
    key_of, table_sound, is_outcome_table, expanded, closed_from, grown,
    lemma_table_start, lemma_table_insert, lemma_table_descend, lemma_grown_twice,
    lemma_table_done,
};

verus! {

broadcast use group_hash_axioms;

/// The number of cells on the board.
pub const BOARD_SIZE: usize = 9;

/// The table of every board that play can reach from the empty board, each
/// filed under its identity with whether the game is over on it and who has
/// won.
pub fn get_all_states() -> (all_states: HashMap<isize, (bool, isize)>)
    ensures
        is_outcome_table(all_states@),
{
    let mut all_states = HashMap::new();
    let cur_symbol: isize = 1;
    let first_state = State::new();
    proof {
        use_type_invariant(&first_state);
        lemma_hash_range(first_state@);
        lemma_empty_board_open();
    }
    all_states.insert(first_state.get_hash(), (first_state.is_end(), first_state.get_winner()));
    proof {
        lemma_table_start(all_states@);
    }
    get_all_states_impl(&first_state, cur_symbol, &mut all_states);
    proof {
        lemma_table_done(all_states@);
    }
    all_states
}

/// Files every board that play can reach from `cur_state`, on which
/// `cur_symbol` is to move, unless it has an entry already.
fn get_all_states_impl(
    cur_state: &State,
    cur_symbol: isize,
    all_states: &mut HashMap<isize, (bool, isize)>,
)
    requires
        reachable(cur_state@),
        !board_terminal(cur_state@),
        cur_symbol == to_move(cur_state@),
        old(all_states)@.contains_key(key_of(cur_state@)),
        table_sound(old(all_states)@),
        closed_from(old(all_states)@, mark_count(cur_state@) + 1),
    ensures
        table_sound(final(all_states)@),
        grown(old(all_states)@, final(all_states)@, mark_count(cur_state@)),
        closed_from(final(all_states)@, mark_count(cur_state@) + 1),
        expanded(final(all_states)@, cur_state@),
    decreases empty_count(cur_state@, 9),
{
    let ghost cur = cur_state@;
    let ghost depth = mark_count(cur);
    let mut i: usize = 0;
    while i < BOARD_SIZE
        invariant
            i <= 9,
            cur == cur_state@,
            depth == mark_count(cur),
            reachable(cur),
            !board_terminal(cur),
            cur_symbol == to_move(cur),
            table_sound(all_states@),
            grown(old(all_states)@, all_states@, depth),
            closed_from(all_states@, depth + 1),
            forall|j: int| 0 <= j < i && cur[j] == 0 ==> all_states@.contains_key(key_of(#[trigger] child(cur, j))),
        decreases 9 - i,
    {
        let tile = cur_state.get_tile(i);
        if let Ok(0) = tile {
            let next = cur_state.get_next_state(i, cur_symbol);
            if let Ok(new_state) = next {
                let ghost c = new_state@;
                let ghost before = all_states@;
                proof {
                    use_type_invariant(&new_state);
                    lemma_child_reachable(cur, i as int);
                    lemma_hash_range(c);
                    assert(c == child(cur, i as int));
                }
                let hash = new_state.get_hash();
                if !all_states.contains_key(&hash) {
                    proof {
                        lemma_table_insert(before, c, depth);
                    }
                    all_states.insert(hash, (new_state.is_end(), new_state.get_winner()));
                    if !new_state.is_end() {
                        proof {
                            lemma_empty_count_of_child(cur, i as int);
                        }
                        get_all_states_impl(&new_state, -cur_symbol, all_states);
                        proof {
                            lemma_table_descend(before, all_states@, c, depth);
                        }
                    }
                    proof {
                        lemma_grown_twice(old(all_states)@, before, all_states@, depth);
                    }
                }
            }
        }
        i += 1;
    }
}

/// Why a request on a position was turned down.
#[derive(Debug, Clone, Copy, PartialEq, Eq, Structural)]
pub enum StateError {
    /// The cell index is not below [`BOARD_SIZE`].
    IndexOutOfRange,
    /// The symbol is neither `1` nor `-1`.
    InvalidSymbol,
    /// The cell already holds a symbol.
    Occupied,
}

/// One position: the nine cells, row by row, with `1` for the player who
/// moves first, `-1` for the other and `0` for an empty cell.
#[derive(Debug, Clone, Copy, PartialEq, Eq)]
pub struct State {
    board: [isize; BOARD_SIZE],
    winner: isize,
    hash: isize,
    end: bool,
}

/// The character that shows a cell: `X` for `1`, `O` for `-1`, a blank
/// otherwise.
pub open spec fn tile_char(tile: int) -> char {
    if tile == 1 {
        'X'
    } else if tile == -1 {
        'O'
    } else {
        ' '
    }
}

/// The cells of an array as a mathematical board.
pub open spec fn cells_of(board: [isize; BOARD_SIZE]) -> Seq<int> {
    Seq::new(9, |k: int| board@[k] as int)
}

impl View for State {
    type V = Seq<int>;

    closed spec fn view(&self) -> Seq<int> {
        cells_of(self.board)
    }
}

impl State {
    /// Every position is a valid board, and its stored identity and outcome
    /// are those of its cells.
    #[verifier::type_invariant]
    pub open spec fn inv(&self) -> bool {
        &&& valid_board(self@)
        &&& self.derived()
    }

    /// The stored identity and outcome are those of the cells.
    pub closed spec fn derived(&self) -> bool {
        &&& self.hash == board_hash(self@)
        &&& self.end == board_terminal(self@)
        &&& self.winner == board_winner(self@)
    }

    /// The position before the first move.
    pub fn new() -> (s: Self)
        ensures
            s@ == empty_board(),
    {
        let board: [isize; BOARD_SIZE] = [0; BOARD_SIZE];
        assert(cells_of(board) =~= empty_board());
        Self::update(board)
    }

    /// The characters that show the nine cells, row by row.
    pub fn chars(&self) -> (char_arr: [char; BOARD_SIZE])
        ensures
            forall|k: int| 0 <= k < 9 ==> #[trigger] char_arr@[k] == tile_char(self@[k]),
    {
        let mut char_arr: [char; BOARD_SIZE] = [' '; BOARD_SIZE];
        let mut i: usize = 0;
        while i < BOARD_SIZE
            invariant
                i <= 9,
                forall|k: int| 0 <= k < i ==> #[trigger] char_arr@[k] == tile_char(self@[k]),
            decreases 9 - i,
        {
            let tile = self.board[i];
            char_arr[i] = if tile == 1 {
                'X'
            } else if tile == -1 {
                'O'
            } else {
                ' '
            };
            i += 1;
        }
        char_arr
    }

    /// Two positions are the same exactly when their identities are.
    pub proof fn lemma_identity(a: State, b: State)
        requires
            a.inv(),
            b.inv(),
        ensures
            a == b <==> board_hash(a@) == board_hash(b@),
    {
        if board_hash(a@) == board_hash(b@) {
            if a@ != b@ {
                lemma_hash_unique(a@, b@);
            }
            assert forall|k: int| 0 <= k < 9 implies a.board[k] == b.board[k] by {
                assert(a@[k] == b@[k]);
            }
            assert(a.board =~= b.board);
        }
    }

    /// The identity of the position.
    pub fn get_hash(&self) -> (hash: isize)
        ensures
            hash == board_hash(self@),
    {
        proof {
            use_type_invariant(self);
        }
        self.hash
    }

    /// The symbol in cell `i`.
    pub fn get_tile(&self, i: usize) -> (tile: Result<isize, StateError>)
        ensures
            i < 9 ==> tile is Ok && tile->Ok_0 == self@[i as int],
            i >= 9 ==> tile == Err::<isize, StateError>(StateError::IndexOutOfRange),
    {
        if i < BOARD_SIZE {
            Ok(self.board[i])
        } else {
            Err(StateError::IndexOutOfRange)
        }
    }

    /// The winner: `1` or `-1`, or `0` when nobody has won.
    pub fn get_winner(&self) -> (winner: isize)
        ensures
            winner == board_winner(self@),
    {
        proof {
            use_type_invariant(self);
        }
        self.winner
    }

    /// Whether the game is over.
    pub fn is_end(&self) -> (end: bool)
        ensures
            end == board_terminal(self@),
    {
        proof {
            use_type_invariant(self);
        }
        self.end
    }

    /// The position after `symbol` is placed in the empty cell `i`.
    pub fn get_next_state(&self, i: usize, symbol: isize) -> (next: Result<Self, StateError>)
        ensures
            i >= 9 ==> next == Err::<Self, StateError>(StateError::IndexOutOfRange),
            i < 9 && symbol != 1 && symbol != -1 ==> next == Err::<Self, StateError>(
                StateError::InvalidSymbol,
            ),
            i < 9 && (symbol == 1 || symbol == -1) && self@[i as int] != 0 ==> next == Err::<
                Self,
                StateError,
            >(StateError::Occupied),
            i < 9 && (symbol == 1 || symbol == -1) && self@[i as int] == 0 ==> next is Ok
                && next->Ok_0@ == self@.update(i as int, symbol as int),
    {
        proof {
            use_type_invariant(self);
        }
        if i >= BOARD_SIZE {
            return Err(StateError::IndexOutOfRange);
        }
        if symbol != 1 && symbol != -1 {
            return Err(StateError::InvalidSymbol);
        }
        if self.board[i] != 0 {
            return Err(StateError::Occupied);
        }
        let mut board = self.board;
        board[i] = symbol;
        assert(cells_of(board) =~= self@.update(i as int, symbol as int));
        Ok(Self::update(board))
    }

    /// The position with the given cells, its identity and outcome computed
    /// from them.
    fn update(board: [isize; BOARD_SIZE]) -> (s: Self)
        requires
            valid_board(cells_of(board)),
        ensures
            s@ == cells_of(board),
    {
        let hash = Self::compute_hash(&board);
        let (end, winner) = Self::check_end(&board);
        State { board, winner, hash, end }
    }

    /// The identity of the cells: the base-3 numeral they spell.
    fn compute_hash(board: &[isize; BOARD_SIZE]) -> (hash: isize)
        requires
            valid_board(cells_of(*board)),
        ensures
            hash == board_hash(cells_of(*board)),
    {
        let ghost b = cells_of(*board);
        let mut hash: isize = 0;
        let mut k: usize = 0;
        proof {
            reveal_with_fuel(pow3, 10);
        }
        while k < BOARD_SIZE
            invariant
                k <= 9,
                b == cells_of(*board),
                valid_board(b),
                hash == hash_prefix(b, k as nat),
                0 <= hash < pow3(k as nat) <= pow3(9) == 19683,
            decreases 9 - k,
        {
            proof {
                lemma_hash_prefix_bound(b, (k + 1) as nat);
                lemma_pow3_monotonic((k + 1) as nat, 9);
            }
            hash = hash * 3 + board[k] + 1;
            k += 1;
        }
        hash
    }

    /// Whether the cells end the game, and who has won.
    fn check_end(board: &[isize; BOARD_SIZE]) -> (r: (bool, isize))
        requires
            valid_board(cells_of(*board)),
        ensures
            r.0 == board_terminal(cells_of(*board)),
            r.1 == board_winner(cells_of(*board)),
    {
        let ghost b = cells_of(*board);
        let mut score: isize;
        let mut i: usize = 0;
        assert forall|k: int| 0 <= k < 9 implies -1 <= #[trigger] board@[k] <= 1 && board@[k] == b[k] by {
            assert(-1 <= b[k] <= 1);
        }
        while i < 3
            invariant
                i <= 3,
                b == cells_of(*board),
                forall|k: int| 0 <= k < 9 ==> -1 <= #[trigger] board@[k] <= 1 && board@[k] == b[k],
                forall|l: int| 0 <= l < 2 * i ==> !line_won(b, l),
            decreases 3 - i,
        {
            // the column through cell i
            score = board[i] + board[i + 3] + board[i + 6];
            assert(score == line_sum(b, 2 * i as int));
            if score == -3 || score == 3 {
                proof {
                    lemma_first_won_line_is(b, 2 * i as int);
                }
                return (true, if score == 3 { 1 } else { -1 });
            }
            // the row that starts at cell 3 * i
            score = board[i * 3] + board[i * 3 + 1] + board[i * 3 + 2];
            assert(score == line_sum(b, 2 * i + 1 as int));
            if score == -3 || score == 3 {
                proof {
                    lemma_first_won_line_is(b, 2 * i + 1 as int);
                }
                return (true, if score == 3 { 1 } else { -1 });
            }
            i += 1;
        }
        score = board[0] + board[4] + board[8];
        assert(score == line_sum(b, 6));
        if score == -3 || score == 3 {
            proof {
                lemma_first_won_line_is(b, 6);
            }
            return (true, if score == 3 { 1 } else { -1 });
        }
        score = board[2] + board[4] + board[6];
        assert(score == line_sum(b, 7));
        if score == -3 || score == 3 {
            proof {
                lemma_first_won_line_is(b, 7);
            }
            return (true, if score == 3 { 1 } else { -1 });
        }
        proof {
            lemma_first_won_line_is(b, 8);
        }
        // nobody has won: the game is over when no cell is left
        let mut marks: usize = 0;
        let mut k: usize = 0;
        while k < BOARD_SIZE
            invariant
                k <= 9,
                b == cells_of(*board),
                valid_board(b),
                marks <= k,
                marks == k <==> forall|j: int| 0 <= j < k ==> #[trigger] b[j] != 0,
            decreases 9 - k,
        {
            assert(b[k as int] == board@[k as int]);
            if board[k] != 0 {
                marks += 1;
            }
            k += 1;
        }
        (marks == BOARD_SIZE, 0)
    }
}

/// A move leaves one empty cell fewer.
proof fn lemma_empty_count_of_child(b: Seq<int>, i: int)
    requires
        reachable(b),
        !board_terminal(b),
        0 <= i < 9,
        b[i] == 0,
    ensures
        empty_count(child(b, i), 9) == empty_count(b, 9) - 1,
{
    lemma_child_reachable(b, i);
}

/// Powers of three grow with the exponent.
proof fn lemma_pow3_monotonic(m: nat, n: nat)
    requires
        m <= n,
    ensures
        0 < pow3(m) <= pow3(n),
    decreases n,
{
    if m < n {
        lemma_pow3_monotonic(m, (n - 1) as nat);
    } else if n > 0 {
        lemma_pow3_monotonic((m - 1) as nat, (n - 1) as nat);
    }
}

} // verus!
