//! The outcome table: what it means for a map from identities to outcomes to
//! hold exactly the reachable boards, and the facts by which a depth-first
//! search is shown to build such a map.

use vstd::prelude::*;
use crate::rules::{
    valid_board, empty_board, board_hash, board_terminal, board_winner, lemma_hash_unique,
    lemma_hash_range,
};
use crate::reach::{
    reachable, mark_count, symbol_count, child, play, legal, lemma_play_counts,
    lemma_reachable_balanced, lemma_reachable_unmarked, lemma_empty_board_open,
};

verus! {

/// The key under which a board is filed.
pub open spec fn key_of(b: Seq<int>) -> isize {
    board_hash(b) as isize
}

/// What the table records of a board: whether the game is over, and the
/// winner.
pub open spec fn outcome_of(b: Seq<int>) -> (bool, isize) {
    (board_terminal(b), board_winner(b) as isize)
}

/// Every entry stands for a reachable board and records its outcome.
pub(crate) open spec fn table_sound(m: Map<isize, (bool, isize)>) -> bool {
    forall|h: isize| #[trigger]
        m.contains_key(h) ==> exists|b: Seq<int>|
            reachable(b) && #[trigger] key_of(b) == h && m[h] == outcome_of(b)
}

/// The map holds the reachable boards, each with its outcome, and nothing
/// else.
pub open spec fn is_outcome_table(m: Map<isize, (bool, isize)>) -> bool {
    &&& forall|b: Seq<int>|
        reachable(b) ==> m.contains_key(#[trigger] key_of(b)) && m[key_of(b)] == outcome_of(b)
    &&& forall|h: isize| #[trigger]
        m.contains_key(h) ==> exists|b: Seq<int>| reachable(b) && #[trigger] key_of(b) == h
}

/// Every legal move on `b` leads to a board with an entry.
pub(crate) open spec fn expanded(m: Map<isize, (bool, isize)>, b: Seq<int>) -> bool {
    forall|i: int| 0 <= i < 9 && b[i] == 0 ==> m.contains_key(key_of(#[trigger] child(b, i)))
}

/// Every entry with at least `d` symbols on which the game is not over
/// has all its successors in the map.
pub(crate) open spec fn closed_from(m: Map<isize, (bool, isize)>, d: int) -> bool {
    forall|b: Seq<int>|
        reachable(b) && mark_count(b) >= d && !board_terminal(b) && m.contains_key(
            #[trigger] key_of(b),
        ) ==> expanded(m, b)
}

/// `m1` keeps every entry of `m0`, and each board it adds has more than `d`
/// symbols.
pub(crate) open spec fn grown(m0: Map<isize, (bool, isize)>, m1: Map<isize, (bool, isize)>, d: int) -> bool {
    &&& forall|h: isize| #[trigger] m0.contains_key(h) ==> m1.contains_key(h) && m1[h] == m0[h]
    &&& forall|b: Seq<int>|
        reachable(b) && m1.contains_key(#[trigger] key_of(b)) && !m0.contains_key(key_of(b))
            ==> mark_count(b) > d
}

/// Two reachable boards filed under one key are the same board.
pub proof fn lemma_key_unique(a: Seq<int>, b: Seq<int>)
    requires
        reachable(a),
        reachable(b),
        key_of(a) == key_of(b),
    ensures
        a == b,
{
    lemma_reachable_balanced(a);
    lemma_reachable_balanced(b);
    lemma_hash_range(a);
    lemma_hash_range(b);
    if a != b {
        lemma_hash_unique(a, b);
    }
}

/// Every entry of an outcome table stands for a valid board on which the
/// opening player has placed as many symbols as the other, or one more.
pub proof fn lemma_outcome_table_legal(m: Map<isize, (bool, isize)>, h: isize)
    requires
        is_outcome_table(m),
        m.contains_key(h),
    ensures
        exists|b: Seq<int>|
            #![trigger key_of(b)]
            key_of(b) == h && valid_board(b) && m[h] == outcome_of(b) && (symbol_count(b, 1, 9)
                == symbol_count(b, -1, 9) || symbol_count(b, 1, 9) == symbol_count(b, -1, 9) + 1),
{
    let b = choose|b: Seq<int>| reachable(b) && #[trigger] key_of(b) == h;
    lemma_reachable_balanced(b);
    assert(key_of(b) == h);
}

/// A board whose successors are all in a map has them in every larger map.
proof fn lemma_expanded_grows(m0: Map<isize, (bool, isize)>, m1: Map<isize, (bool, isize)>, b: Seq<int>)
    requires
        expanded(m0, b),
        forall|h: isize| #[trigger] m0.contains_key(h) ==> m1.contains_key(h),
    ensures
        expanded(m1, b),
{
    assert forall|i: int| 0 <= i < 9 && b[i] == 0 implies m1.contains_key(
        key_of(#[trigger] child(b, i)),
    ) by {
        assert(m0.contains_key(key_of(child(b, i))));
    }
}

/// The map that holds the empty board alone is sound, and closed from one
/// symbol on.
pub(crate) proof fn lemma_table_start(m: Map<isize, (bool, isize)>)
    requires
        m == Map::<isize, (bool, isize)>::empty().insert(
            key_of(empty_board()),
            outcome_of(empty_board()),
        ),
    ensures
        reachable(empty_board()),
        table_sound(m),
        closed_from(m, 1),
{
    lemma_empty_board_open();
    assert forall|b: Seq<int>|
        reachable(b) && mark_count(b) >= 1 && !board_terminal(b) && m.contains_key(
            #[trigger] key_of(b),
        ) implies expanded(m, b) by {
        lemma_key_unique(b, empty_board());
    }
}

/// Filing a reachable board of `d + 1` symbols that has no entry yet keeps
/// the map sound and closed from `d + 2` symbols on; where the game is over
/// on that board, the map stays closed from `d + 1` on.
pub(crate) proof fn lemma_table_insert(m: Map<isize, (bool, isize)>, c: Seq<int>, d: int)
    requires
        table_sound(m),
        closed_from(m, d + 1),
        reachable(c),
        mark_count(c) == d + 1,
        !m.contains_key(key_of(c)),
    ensures
        table_sound(m.insert(key_of(c), outcome_of(c))),
        grown(m, m.insert(key_of(c), outcome_of(c)), d),
        closed_from(m.insert(key_of(c), outcome_of(c)), d + 2),
        board_terminal(c) ==> closed_from(m.insert(key_of(c), outcome_of(c)), d + 1),
{
    let m1 = m.insert(key_of(c), outcome_of(c));
    assert forall|h: isize| #[trigger] m1.contains_key(h) implies exists|b: Seq<int>|
        reachable(b) && #[trigger] key_of(b) == h && m1[h] == outcome_of(b) by {
        if h == key_of(c) {
            assert(reachable(c) && key_of(c) == h && m1[h] == outcome_of(c));
        } else {
            assert(m.contains_key(h));
            let b = choose|b: Seq<int>|
                reachable(b) && #[trigger] key_of(b) == h && m[h] == outcome_of(b);
            assert(reachable(b) && key_of(b) == h && m1[h] == outcome_of(b));
        }
    }
    assert forall|b: Seq<int>|
        reachable(b) && m1.contains_key(#[trigger] key_of(b)) && !m.contains_key(
            key_of(b),
        ) implies mark_count(b) > d by {
        lemma_key_unique(b, c);
    }
    assert forall|b: Seq<int>|
        reachable(b) && mark_count(b) >= d + 1 && !board_terminal(b) && m1.contains_key(
            #[trigger] key_of(b),
        ) && (mark_count(b) >= d + 2 || board_terminal(c)) implies expanded(m1, b) by {
        if key_of(b) == key_of(c) {
            lemma_key_unique(b, c);
        } else {
            assert(m.contains_key(key_of(b)));
            lemma_expanded_grows(m, m1, b);
        }
    }
}

/// After the successors of the newly filed board `c` have been explored,
/// the map is closed from the depth of `c` on, and what it gained since `m`
/// lies deeper than `d`.
pub(crate) proof fn lemma_table_descend(
    m: Map<isize, (bool, isize)>,
    m2: Map<isize, (bool, isize)>,
    c: Seq<int>,
    d: int,
)
    requires
        closed_from(m, d + 1),
        reachable(c),
        mark_count(c) == d + 1,
        !m.contains_key(key_of(c)),
        grown(m.insert(key_of(c), outcome_of(c)), m2, d + 1),
        closed_from(m2, d + 2),
        expanded(m2, c),
    ensures
        closed_from(m2, d + 1),
        grown(m, m2, d),
{
    let m1 = m.insert(key_of(c), outcome_of(c));
    assert forall|h: isize| #[trigger] m.contains_key(h) implies m2.contains_key(h) && m2[h]
        == m[h] by {
        assert(m1.contains_key(h));
    }
    assert forall|b: Seq<int>|
        reachable(b) && mark_count(b) >= d + 1 && !board_terminal(b) && m2.contains_key(
            #[trigger] key_of(b),
        ) implies expanded(m2, b) by {
        if mark_count(b) >= d + 2 {
        } else if key_of(b) == key_of(c) {
            lemma_key_unique(b, c);
        } else {
            assert(m1.contains_key(key_of(b)));
            assert(m.contains_key(key_of(b)));
            lemma_expanded_grows(m, m2, b);
        }
    }
    assert forall|b: Seq<int>|
        reachable(b) && m2.contains_key(#[trigger] key_of(b)) && !m.contains_key(
            key_of(b),
        ) implies mark_count(b) > d by {
        if m1.contains_key(key_of(b)) {
            lemma_key_unique(b, c);
        }
    }
}

/// Growth composes: what was added in two rounds was added.
pub(crate) proof fn lemma_grown_twice(
    m0: Map<isize, (bool, isize)>,
    m1: Map<isize, (bool, isize)>,
    m2: Map<isize, (bool, isize)>,
    d: int,
)
    requires
        grown(m0, m1, d),
        grown(m1, m2, d),
    ensures
        grown(m0, m2, d),
{
    assert forall|h: isize| #[trigger] m0.contains_key(h) implies m2.contains_key(h) && m2[h]
        == m0[h] by {
        assert(m1.contains_key(h));
    }
    assert forall|b: Seq<int>|
        reachable(b) && m2.contains_key(#[trigger] key_of(b)) && !m0.contains_key(
            key_of(b),
        ) implies mark_count(b) > d by {
        if m1.contains_key(key_of(b)) {
        }
    }
}

/// A map that holds the empty board and is closed from the start holds the
/// board of every legal game.
proof fn lemma_closed_holds_play(m: Map<isize, (bool, isize)>, moves: Seq<int>)
    requires
        m.contains_key(key_of(empty_board())),
        closed_from(m, 0),
        legal(moves),
    ensures
        m.contains_key(key_of(play(moves))),
    decreases moves.len(),
{
    if moves.len() > 0 {
        let before = play(moves.drop_last());
        lemma_closed_holds_play(m, moves.drop_last());
        lemma_play_counts(moves.drop_last());
        assert(reachable(before));
        assert(expanded(m, before));
        assert(play(moves) == child(before, moves.last()));
    }
}

/// A sound map that holds the empty board and is closed from the start is
/// the outcome table.
pub(crate) proof fn lemma_table_done(m: Map<isize, (bool, isize)>)
    requires
        m.contains_key(key_of(empty_board())),
        table_sound(m),
        closed_from(m, 1),
        expanded(m, empty_board()),
    ensures
        is_outcome_table(m),
{
    assert forall|b: Seq<int>|
        reachable(b) && mark_count(b) >= 0 && !board_terminal(b) && m.contains_key(
            #[trigger] key_of(b),
        ) implies expanded(m, b) by {
        lemma_reachable_balanced(b);
        if mark_count(b) == 0 {
            lemma_reachable_unmarked(b);
        }
    }
    assert forall|b: Seq<int>| reachable(b) implies m.contains_key(#[trigger] key_of(b)) && m[key_of(
        b,
    )] == outcome_of(b) by {
        let moves = choose|moves: Seq<int>| legal(moves) && #[trigger] play(moves) == b;
        lemma_closed_holds_play(m, moves);
        let w = choose|w: Seq<int>|
            reachable(w) && #[trigger] key_of(w) == key_of(b) && m[key_of(b)] == outcome_of(w);
        lemma_key_unique(w, b);
    }
    assert forall|h: isize| #[trigger] m.contains_key(h) implies exists|b: Seq<int>|
        reachable(b) && #[trigger] key_of(b) == h by {
        let b = choose|b: Seq<int>|
            reachable(b) && #[trigger] key_of(b) == h && m[h] == outcome_of(b);
        assert(reachable(b) && key_of(b) == h);
    }
}

} // verus!
