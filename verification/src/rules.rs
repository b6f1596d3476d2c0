//! The rules of the game over a mathematical board: nine cells, each holding
//! `-1`, `0` (empty) or `1`.

use vstd::prelude::*;

verus! {

/// A board has nine cells and every cell holds `-1`, `0` or `1`.
pub open spec fn valid_board(b: Seq<int>) -> bool {
    &&& b.len() == 9
    &&& forall|k: int| 0 <= k < 9 ==> -1 <= #[trigger] b[k] <= 1
}

/// The board on which nobody has moved.
pub open spec fn empty_board() -> Seq<int> {
    Seq::new(9, |k: int| 0int)
}

/// The base-3 numeral made of the first `n` cells, first cell most
/// significant, where a cell holding `v` is the digit `v + 1`.
pub open spec fn hash_prefix(b: Seq<int>, n: nat) -> int
    decreases n,
{
    if n == 0 {
        0
    } else {
        hash_prefix(b, (n - 1) as nat) * 3 + b[n - 1] + 1
    }
}

/// The identity of a board: all nine cells read as one base-3 numeral.
pub open spec fn board_hash(b: Seq<int>) -> int {
    hash_prefix(b, 9)
}

/// Three to the power `n`.
pub open spec fn pow3(n: nat) -> int
    decreases n,
{
    if n == 0 {
        1
    } else {
        3 * pow3((n - 1) as nat)
    }
}

/// The numeral of `n` cells lies below three to the power `n`.
pub proof fn lemma_hash_prefix_bound(b: Seq<int>, n: nat)
    requires
        valid_board(b),
        n <= 9,
    ensures
        0 <= hash_prefix(b, n) < pow3(n),
    decreases n,
{
    if n > 0 {
        lemma_hash_prefix_bound(b, (n - 1) as nat);
    }
}

/// A board's identity lies between `0` and `3^9 - 1`.
pub proof fn lemma_hash_range(b: Seq<int>)
    requires
        valid_board(b),
    ensures
        0 <= board_hash(b) <= 19682,
{
    lemma_hash_prefix_bound(b, 9);
    assert(pow3(9) == 19683) by {
        reveal_with_fuel(pow3, 10);
    }
}

/// The cells of the eight lines, in the order in which they are examined:
/// column and row alternate, then the two diagonals.
pub open spec fn line_cells(l: int) -> (int, int, int) {
    if l == 0 {
        (0, 3, 6)
    } else if l == 1 {
        (0, 1, 2)
    } else if l == 2 {
        (1, 4, 7)
    } else if l == 3 {
        (3, 4, 5)
    } else if l == 4 {
        (2, 5, 8)
    } else if l == 5 {
        (6, 7, 8)
    } else if l == 6 {
        (0, 4, 8)
    } else {
        (2, 4, 6)
    }
}

/// The sum of the three cells of line `l`.
pub open spec fn line_sum(b: Seq<int>, l: int) -> int {
    let c = line_cells(l);
    b[c.0] + b[c.1] + b[c.2]
}

/// Line `l` is held by one player: its cells sum to `3` or to `-3`.
pub open spec fn line_won(b: Seq<int>, l: int) -> bool {
    line_sum(b, l) == 3 || line_sum(b, l) == -3
}

/// The first line at or after `from`, in examination order, that one player
/// holds; `8` when there is none.
pub open spec fn first_won_line(b: Seq<int>, from: int) -> int
    decreases 8 - from,
{
    if from >= 8 {
        8
    } else if line_won(b, from) {
        from
    } else {
        first_won_line(b, from + 1)
    }
}

/// Two valid boards whose first `n` cells spell the same numeral agree on
/// those cells.
proof fn lemma_hash_prefix_injective(a: Seq<int>, b: Seq<int>, n: nat)
    requires
        valid_board(a),
        valid_board(b),
        n <= 9,
        hash_prefix(a, n) == hash_prefix(b, n),
    ensures
        forall|k: int| 0 <= k < n ==> a[k] == b[k],
    decreases n,
{
    if n > 0 {
        assert(0 <= a[n - 1] + 1 <= 2);
        assert(0 <= b[n - 1] + 1 <= 2);
        lemma_hash_prefix_injective(a, b, (n - 1) as nat);
    }
}

/// Two valid boards that differ in a cell have different identities.
pub proof fn lemma_hash_unique(a: Seq<int>, b: Seq<int>)
    requires
        valid_board(a),
        valid_board(b),
        a != b,
    ensures
        board_hash(a) != board_hash(b),
{
    if board_hash(a) == board_hash(b) {
        lemma_hash_prefix_injective(a, b, 9);
        assert(a =~= b);
    }
}

/// The `n` cells whose numeral is `h`.
pub open spec fn cells_of_numeral(h: int, n: nat) -> Seq<int>
    decreases n,
{
    if n == 0 {
        Seq::empty()
    } else {
        cells_of_numeral(h / 3, (n - 1) as nat).push(h % 3 - 1)
    }
}

/// The numeral of the first `n` cells does not depend on the cells after
/// them.
proof fn lemma_hash_prefix_of_push(b: Seq<int>, x: int, n: nat)
    requires
        n <= b.len(),
    ensures
        hash_prefix(b.push(x), n) == hash_prefix(b, n),
    decreases n,
{
    if n > 0 {
        lemma_hash_prefix_of_push(b, x, (n - 1) as nat);
    }
}

/// The cells of a numeral below three to the power `n` are `n` valid cells
/// that spell it.
proof fn lemma_cells_of_numeral(h: int, n: nat)
    requires
        0 <= h < pow3(n),
    ensures
        cells_of_numeral(h, n).len() == n,
        forall|k: int| 0 <= k < n ==> -1 <= #[trigger] cells_of_numeral(h, n)[k] <= 1,
        hash_prefix(cells_of_numeral(h, n), n) == h,
    decreases n,
{
    if n > 0 {
        let rest = cells_of_numeral(h / 3, (n - 1) as nat);
        lemma_cells_of_numeral(h / 3, (n - 1) as nat);
        lemma_hash_prefix_of_push(rest, h % 3 - 1, (n - 1) as nat);
    }
}

/// Every number from `0` to `3^9 - 1` is the identity of a valid board.
/// With `lemma_hash_unique` this makes the identity a one-to-one
/// correspondence between the valid boards and these numbers.
pub proof fn lemma_hash_onto(h: int)
    requires
        0 <= h <= 19682,
    ensures
        valid_board(cells_of_numeral(h, 9)),
        board_hash(cells_of_numeral(h, 9)) == h,
{
    assert(pow3(9) == 19683) by {
        reveal_with_fuel(pow3, 10);
    }
    lemma_cells_of_numeral(h, 9);
}

/// `first_won_line` names a held line before which, from `from` on, no line
/// is held; or `8` when no line from `from` on is held.
pub proof fn lemma_first_won_line(b: Seq<int>, from: int)
    requires
        0 <= from <= 8,
    ensures
        from <= first_won_line(b, from) <= 8,
        first_won_line(b, from) < 8 ==> line_won(b, first_won_line(b, from)),
        forall|l: int| from <= l < first_won_line(b, from) ==> !line_won(b, l),
    decreases 8 - from,
{
    if from < 8 && !line_won(b, from) {
        lemma_first_won_line(b, from + 1);
    }
}

/// The first held line is `l` when `l` is held and no line before it is;
/// it is `8` when no line is held at all.
pub proof fn lemma_first_won_line_is(b: Seq<int>, l: int)
    requires
        0 <= l <= 8,
        l < 8 ==> line_won(b, l),
        forall|j: int| 0 <= j < l ==> !line_won(b, j),
    ensures
        first_won_line(b, 0) == l,
{
    lemma_first_won_line(b, 0);
}

/// Some line is held by one player.
pub open spec fn has_won_line(b: Seq<int>) -> bool {
    first_won_line(b, 0) < 8
}

/// The number of empty cells among the first `n`.
pub open spec fn empty_count(b: Seq<int>, n: nat) -> nat
    decreases n,
{
    if n == 0 {
        0
    } else {
        empty_count(b, (n - 1) as nat) + if b[n - 1] == 0 {
            1nat
        } else {
            0nat
        }
    }
}

/// No cell is empty.
pub open spec fn board_full(b: Seq<int>) -> bool {
    forall|k: int| 0 <= k < b.len() ==> #[trigger] b[k] != 0
}

/// The game is over: a line is held, or the board is full.
pub open spec fn board_terminal(b: Seq<int>) -> bool {
    has_won_line(b) || board_full(b)
}

/// The holder of the first held line (`1` or `-1`), or `0` when no line is
/// held. Where two players each hold a line, which no legal game produces,
/// the line examined first decides.
pub open spec fn board_winner(b: Seq<int>) -> int {
    let l = first_won_line(b, 0);
    if l < 8 {
        if line_sum(b, l) == 3 {
            1
        } else {
            -1
        }
    } else {
        0
    }
}

} // verus!
