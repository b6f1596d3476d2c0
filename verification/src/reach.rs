//! Which boards a game can reach: boards as the result of a sequence of
//! legal moves, and what holds of every such board.

use vstd::prelude::*;
use crate::rules::{
    valid_board, empty_board, empty_count, board_full, board_terminal, line_won,
    lemma_first_won_line_is,
};

verus! {

/// The symbol that makes move number `k`, counted from zero: `1` opens and
/// the two alternate.
pub open spec fn mover(k: int) -> int {
    if k % 2 == 0 {
        1
    } else {
        -1
    }
}

/// The board after the moves (cell indices) have been made in turn from the
/// empty board.
pub open spec fn play(moves: Seq<int>) -> Seq<int>
    decreases moves.len(),
{
    if moves.len() == 0 {
        empty_board()
    } else {
        play(moves.drop_last()).update(moves.last(), mover(moves.len() - 1))
    }
}

/// Every move goes to an empty cell of a board on which the game is not
/// over.
pub open spec fn legal(moves: Seq<int>) -> bool
    decreases moves.len(),
{
    moves.len() == 0 || {
        let before = play(moves.drop_last());
        &&& legal(moves.drop_last())
        &&& !board_terminal(before)
        &&& 0 <= moves.last() < 9
        &&& before[moves.last()] == 0
    }
}

/// Some sequence of legal moves from the empty board produces `b`.
pub open spec fn reachable(b: Seq<int>) -> bool {
    exists|moves: Seq<int>| legal(moves) && #[trigger] play(moves) == b
}

/// The number of cells that hold a symbol.
pub open spec fn mark_count(b: Seq<int>) -> int {
    9 - empty_count(b, 9)
}

/// The symbol that moves next on `b`.
pub open spec fn to_move(b: Seq<int>) -> int {
    mover(mark_count(b))
}

/// The board after the player to move takes cell `i`.
pub open spec fn child(b: Seq<int>, i: int) -> Seq<int> {
    b.update(i, to_move(b))
}

/// The number of cells among the first `n` that hold `v`.
pub open spec fn symbol_count(b: Seq<int>, v: int, n: nat) -> nat
    decreases n,
{
    if n == 0 {
        0
    } else {
        symbol_count(b, v, (n - 1) as nat) + if b[n - 1] == v {
            1nat
        } else {
            0nat
        }
    }
}

/// At most `n` of the first `n` cells are empty.
pub proof fn lemma_empty_count_bound(b: Seq<int>, n: nat)
    ensures
        empty_count(b, n) <= n,
    decreases n,
{
    if n > 0 {
        lemma_empty_count_bound(b, (n - 1) as nat);
    }
}

/// Where none of the first `n` cells counts as empty, none is.
proof fn lemma_no_empty_cell(b: Seq<int>, n: nat)
    requires
        empty_count(b, n) == 0,
    ensures
        forall|k: int| 0 <= k < n ==> #[trigger] b[k] != 0,
    decreases n,
{
    if n > 0 {
        lemma_no_empty_cell(b, (n - 1) as nat);
    }
}

/// On a board with nine symbols the game is over: no game has more than
/// nine moves.
pub proof fn lemma_nine_marks_end(b: Seq<int>)
    requires
        b.len() == 9,
        mark_count(b) == 9,
    ensures
        board_full(b),
        board_terminal(b),
{
    lemma_no_empty_cell(b, 9);
}

/// Filling an empty cell lowers the number of empty cells by one.
proof fn lemma_empty_count_update(b: Seq<int>, i: int, v: int, n: nat)
    requires
        b.len() == 9,
        0 <= i < 9,
        b[i] == 0,
        v != 0,
        n <= 9,
    ensures
        empty_count(b.update(i, v), n) == empty_count(b, n) - (if i < n {
            1int
        } else {
            0int
        }),
    decreases n,
{
    if n > 0 {
        lemma_empty_count_update(b, i, v, (n - 1) as nat);
    }
}

/// Placing `v` in an empty cell raises the count of `v` by one and leaves
/// the count of every other symbol but the empty one as it was.
proof fn lemma_symbol_count_update(b: Seq<int>, i: int, v: int, w: int, n: nat)
    requires
        b.len() == 9,
        0 <= i < 9,
        b[i] == 0,
        v != 0,
        w != 0,
        n <= 9,
    ensures
        symbol_count(b.update(i, v), w, n) == symbol_count(b, w, n) + (if i < n && v == w {
            1int
        } else {
            0int
        }),
    decreases n,
{
    if n > 0 {
        lemma_symbol_count_update(b, i, v, w, (n - 1) as nat);
    }
}

/// The empty board has nine empty cells and no symbol.
proof fn lemma_empty_board_counts(w: int, n: nat)
    requires
        n <= 9,
        w != 0,
    ensures
        empty_count(empty_board(), n) == n,
        symbol_count(empty_board(), w, n) == 0,
    decreases n,
{
    if n > 0 {
        lemma_empty_board_counts(w, (n - 1) as nat);
    }
}

/// The empty board can be reached by play; the game is not over on it, and
/// the opening player is to move.
pub proof fn lemma_empty_board_open()
    ensures
        valid_board(empty_board()),
        reachable(empty_board()),
        !board_terminal(empty_board()),
        mark_count(empty_board()) == 0,
        to_move(empty_board()) == 1,
{
    let e = empty_board();
    assert forall|l: int| 0 <= l < 8 implies !line_won(e, l) by {}
    lemma_first_won_line_is(e, 8);
    assert(e[0] == 0);
    lemma_empty_board_counts(1, 9);
    let none = Seq::<int>::empty();
    assert(legal(none) && play(none) == e);
}

/// A legal game of `n` moves gives a valid board with `n` symbols on it, of
/// which the opening player has placed every other one, starting with the
/// first.
pub proof fn lemma_play_counts(moves: Seq<int>)
    requires
        legal(moves),
    ensures
        valid_board(play(moves)),
        mark_count(play(moves)) == moves.len(),
        moves.len() <= 9,
        symbol_count(play(moves), 1, 9) == (moves.len() + 1) / 2,
        symbol_count(play(moves), -1, 9) == moves.len() / 2,
    decreases moves.len(),
{
    if moves.len() == 0 {
        lemma_empty_board_counts(1, 9);
        lemma_empty_board_counts(-1, 9);
    } else {
        let before = play(moves.drop_last());
        let v = mover(moves.len() - 1);
        lemma_play_counts(moves.drop_last());
        lemma_empty_count_update(before, moves.last(), v, 9);
        lemma_symbol_count_update(before, moves.last(), v, 1, 9);
        lemma_symbol_count_update(before, moves.last(), v, -1, 9);
        lemma_empty_count_bound(play(moves), 9);
    }
}

/// A reachable board is valid, and the opening player has placed as many
/// symbols as the other, or one more.
pub proof fn lemma_reachable_balanced(b: Seq<int>)
    requires
        reachable(b),
    ensures
        valid_board(b),
        0 <= mark_count(b) <= 9,
        symbol_count(b, 1, 9) + symbol_count(b, -1, 9) == mark_count(b),
        symbol_count(b, 1, 9) == symbol_count(b, -1, 9) || symbol_count(b, 1, 9) == symbol_count(
            b,
            -1,
            9,
        ) + 1,
{
    let moves = choose|moves: Seq<int>| legal(moves) && #[trigger] play(moves) == b;
    lemma_play_counts(moves);
}

/// The only reachable board without a symbol is the empty one.
pub proof fn lemma_reachable_unmarked(b: Seq<int>)
    requires
        reachable(b),
        mark_count(b) == 0,
    ensures
        b == empty_board(),
{
    let moves = choose|moves: Seq<int>| legal(moves) && #[trigger] play(moves) == b;
    lemma_play_counts(moves);
}

/// A legal move on a reachable board gives a reachable board with one more
/// symbol, on which the other player moves.
pub proof fn lemma_child_reachable(b: Seq<int>, i: int)
    requires
        reachable(b),
        !board_terminal(b),
        0 <= i < 9,
        b[i] == 0,
    ensures
        reachable(child(b, i)),
        mark_count(child(b, i)) == mark_count(b) + 1,
        to_move(child(b, i)) == -to_move(b),
{
    let moves = choose|moves: Seq<int>| legal(moves) && #[trigger] play(moves) == b;
    lemma_play_counts(moves);
    let next = moves.push(i);
    assert(next.drop_last() =~= moves);
    assert(play(next) == child(b, i));
    assert(legal(next));
    lemma_play_counts(next);
}

} // verus!
