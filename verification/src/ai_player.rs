//! The decisions of a learning agent: how its value estimates start out,
//! which moves are open to it, which move it takes, and which estimates an
//! episode updates. The estimates themselves are numbers kept by the caller.

use std::collections::HashMap;
use vstd::prelude::*;
use vstd::std_specs::hash::group_hash_axioms;
use vstd::std_specs::iter::IteratorSpec;
use rand::Rng;
use rand::seq::SliceRandom;
use crate::reach::{reachable, to_move, child, lemma_child_reachable};
use crate::rules::{board_terminal, lemma_hash_range};
use crate::state::{State, BOARD_SIZE};
use crate::table::{key_of, is_outcome_table};

verus! {

broadcast use group_hash_axioms;

/// The value at which an estimate starts out: `0`, one half or `1`.
#[derive(Debug, Clone, Copy, PartialEq, Eq, Structural)]
pub enum Prior {
    /// The position is lost: `0`.
    Zero,
    /// The position is drawn or still open: one half.
    Half,
    /// The position is won: `1`.
    One,
}

/// The starting estimate that the player `symbol` gives a position with the
/// given outcome: `1` where the game is over and the player has won, `0`
/// where it is over and the opponent has won, one half for a draw and for
/// every position on which the game goes on.
pub open spec fn prior_of(symbol: isize, outcome: (bool, isize)) -> Prior {
    if outcome.0 {
        if outcome.1 == symbol {
            Prior::One
        } else if outcome.1 == 0 {
            Prior::Half
        } else {
            Prior::Zero
        }
    } else {
        Prior::Half
    }
}

/// One update of an episode's backup: the estimate of `state` moves toward
/// the estimate of `successor`, the position seen next, if the move made
/// from `state` followed the estimates, and stays as it is if it did not.
#[derive(Debug, Clone, Copy, PartialEq, Eq, Structural)]
pub struct TdStep {
    /// The identity of the position whose estimate is updated.
    pub state: isize,
    /// The identity of the position that was seen next.
    pub successor: isize,
    /// Whether the move made from `state` followed the estimates.
    pub greedy: bool,
}

/// The updates of an episode, in the order in which they are applied: from
/// the position before the last back to the first, each toward the position
/// seen after it. An episode of fewer than two positions updates nothing.
pub open spec fn backup_steps(trace: Seq<(Seq<int>, bool)>) -> Seq<TdStep> {
    if trace.len() < 2 {
        Seq::empty()
    } else {
        Seq::new(
            (trace.len() - 1) as nat,
            |k: int|
                {
                    let i = trace.len() - 2 - k;
                    TdStep {
                        state: key_of(trace[i].0),
                        successor: key_of(trace[i + 1].0),
                        greedy: trace[i].1,
                    }
                },
        )
    }
}

/// The latest entry of `trace` flagged as a move that did not follow the
/// estimates, if `explore` is set; `trace` itself otherwise.
pub open spec fn flagged(trace: Seq<(Seq<int>, bool)>, explore: bool) -> Seq<(Seq<int>, bool)> {
    if explore && trace.len() > 0 {
        trace.update(trace.len() - 1, (trace.last().0, false))
    } else {
        trace
    }
}

/// The moves open on `b` among its first `n` cells, in ascending order of
/// the cell, each with the identity of the board that `symbol` makes by
/// taking the cell.
pub open spec fn open_moves(b: Seq<int>, symbol: int, n: nat) -> Seq<(usize, isize)>
    decreases n,
{
    if n == 0 {
        Seq::empty()
    } else {
        let rest = open_moves(b, symbol, (n - 1) as nat);
        if b[n - 1] == 0 {
            rest.push(((n - 1) as usize, key_of(b.update(n - 1, symbol))))
        } else {
            rest
        }
    }
}

/// `open_moves` lists the empty cells below `n`, and every one of them.
pub proof fn lemma_open_moves(b: Seq<int>, symbol: int, n: nat)
    requires
        n <= 9,
    ensures
        open_moves(b, symbol, n).len() <= n,
        forall|k: int|
            0 <= k < open_moves(b, symbol, n).len() ==> ({
                let m = #[trigger] open_moves(b, symbol, n)[k];
                m.0 < n && b[m.0 as int] == 0 && m.1 == key_of(b.update(m.0 as int, symbol))
            }),
        forall|i: int|
            0 <= i < n && b[i] == 0 ==> exists|k: int|
                0 <= k < open_moves(b, symbol, n).len() && (#[trigger] open_moves(
                    b,
                    symbol,
                    n,
                )[k]).0 == i,
    decreases n,
{
    if n > 0 {
        let rest = open_moves(b, symbol, (n - 1) as nat);
        let all = open_moves(b, symbol, n);
        lemma_open_moves(b, symbol, (n - 1) as nat);
        assert forall|i: int| 0 <= i < n && b[i] == 0 implies exists|k: int|
            0 <= k < all.len() && (#[trigger] all[k]).0 == i by {
            if i == n - 1 {
                assert(all[all.len() - 1].0 == i);
            } else {
                let k = choose|k: int| 0 <= k < rest.len() && (#[trigger] rest[k]).0 == i;
                assert(all[k].0 == i);
            }
        }
    }
}

/// Every position of `trace` can be reached by play.
pub open spec fn all_reachable(trace: Seq<(Seq<int>, bool)>) -> bool {
    forall|k: int| 0 <= k < trace.len() ==> reachable((#[trigger] trace[k]).0)
}

/// On a reachable board on which the game goes on, every move open to the
/// player to move leads to a board that the outcome table holds: an agent
/// that plays by the rules never meets a position without an entry.
pub proof fn lemma_moves_have_entries(m: Map<isize, (bool, isize)>, b: Seq<int>)
    requires
        is_outcome_table(m),
        reachable(b),
        !board_terminal(b),
    ensures
        forall|k: int|
            0 <= k < open_moves(b, to_move(b), 9).len() ==> m.contains_key(
                (#[trigger] open_moves(b, to_move(b), 9)[k]).1,
            ),
{
    lemma_open_moves(b, to_move(b), 9);
    assert forall|k: int| 0 <= k < open_moves(b, to_move(b), 9).len() implies m.contains_key(
        (#[trigger] open_moves(b, to_move(b), 9)[k]).1,
    ) by {
        let i = open_moves(b, to_move(b), 9)[k].0 as int;
        lemma_child_reachable(b, i);
        assert(m.contains_key(key_of(child(b, i))));
    }
}

/// The updates of an episode of reachable positions name only positions
/// that the outcome table holds.
pub proof fn lemma_steps_have_entries(m: Map<isize, (bool, isize)>, trace: Seq<(Seq<int>, bool)>)
    requires
        is_outcome_table(m),
        all_reachable(trace),
    ensures
        forall|j: int|
            0 <= j < backup_steps(trace).len() ==> m.contains_key(
                (#[trigger] backup_steps(trace)[j]).state,
            ) && m.contains_key(backup_steps(trace)[j].successor),
{
    assert forall|j: int| 0 <= j < backup_steps(trace).len() implies m.contains_key(
        (#[trigger] backup_steps(trace)[j]).state,
    ) && m.contains_key(backup_steps(trace)[j].successor) by {
        let i = trace.len() - 2 - j;
        assert(reachable(trace[i].0));
        assert(reachable(trace[i + 1].0));
        assert(m.contains_key(key_of(trace[i].0)));
        assert(m.contains_key(key_of(trace[i + 1].0)));
    }
}

/// The candidate that a stable ascending sort by rank would put last: the
/// last one, in the order given, among those of the highest rank.
pub open spec fn is_last_best(values: Seq<(u64, usize)>, j: int) -> bool {
    &&& 0 <= j < values.len()
    &&& forall|k: int| 0 <= k < values.len() ==> (#[trigger] values[k]).0 <= values[j].0
    &&& forall|k: int| j < k < values.len() ==> (#[trigger] values[k]).0 < values[j].0
}

/// The cell of the last candidate among those of the highest rank. Each
/// candidate is a rank and a cell.
pub fn last_best(values: &Vec<(u64, usize)>) -> (index: usize)
    requires
        values@.len() > 0,
    ensures
        exists|j: int| is_last_best(values@, j) && index == values@[j].1,
{
    let mut best: usize = 0;
    let mut k: usize = 1;
    while k < values.len()
        invariant
            1 <= k <= values@.len(),
            is_last_best(values@.take(k as int), best as int),
        decreases values@.len() - k,
    {
        if values[k].0 >= values[best].0 {
            best = k;
        }
        k += 1;
        assert forall|j: int| 0 <= j < k implies values@.take(k as int)[j] == values@.take(
            k - 1,
        ).push(values@[k - 1])[j] by {}
    }
    assert(values@.take(k as int) =~= values@);
    values[best].1
}

/// `rand::rngs::ThreadRng`, the handle to the random number generator of
/// the calling thread. Nothing is known of what it holds.
#[verifier::external_type_specification]
#[verifier::external_body]
pub struct ExThreadRng(rand::rngs::ThreadRng);

/// `rand::thread_rng` hands out the generator of the calling thread. Nothing
/// is claimed of it. Where the system gives no entropy to seed the
/// generator, the call fails with a panic.
pub assume_specification[ rand::thread_rng ]() -> (rng: rand::rngs::ThreadRng);

/// A number below `n`, drawn by `rand::Rng::gen_range` from the range
/// `0..n`. The contract states the range of the draw and nothing of its
/// distribution; the call panics on an empty range, which `requires` leaves
/// out.
#[verifier::external_body]
fn random_index(rng: &mut rand::rngs::ThreadRng, n: usize) -> (r: usize)
    requires
        n > 0,
    ensures
        r < n,
{
    rng.gen_range(0..n)
}

/// Reorders `values` by `rand::seq::SliceRandom::shuffle`, which swaps
/// elements in place. The contract states that the same candidates are there
/// afterwards, each as often as before, and nothing of their order.
#[verifier::external_body]
fn shuffle_values(rng: &mut rand::rngs::ThreadRng, values: &mut Vec<(u64, usize)>)
    ensures
        final(values)@.to_multiset() == old(values)@.to_multiset(),
{
    values.shuffle(rng);
}

/// A learning agent: the symbol it plays and the positions it has seen in
/// the current episode, each with a flag that says whether the move the
/// agent then made followed its estimates.
#[derive(Debug)]
pub struct AiPlayer {
    steps: Vec<(State, bool)>,
    symbol: isize,
}

impl AiPlayer {
    /// The symbol that the agent plays; `0` until one is set.
    pub closed spec fn symbol(&self) -> isize {
        self.symbol
    }

    /// The positions seen in this episode, oldest first, each with its flag.
    pub closed spec fn trace(&self) -> Seq<(Seq<int>, bool)> {
        Seq::new(self.steps@.len(), |k: int| (self.steps@[k].0@, self.steps@[k].1))
    }

    /// An agent without a symbol that has seen nothing.
    pub fn default() -> (player: Self)
        ensures
            player.symbol() == 0,
            player.trace() == Seq::<(Seq<int>, bool)>::empty(),
    {
        let player = Self { steps: Vec::new(), symbol: 0 };
        assert(player.trace() =~= Seq::<(Seq<int>, bool)>::empty());
        player
    }

    /// Forgets the positions of the episode.
    pub fn reset(&mut self)
        ensures
            final(self).symbol() == old(self).symbol(),
            final(self).trace() == Seq::<(Seq<int>, bool)>::empty(),
    {
        self.steps = Vec::new();
        assert(self.trace() =~= Seq::<(Seq<int>, bool)>::empty());
    }

    /// Records `state` as the latest position, flagged as following the
    /// estimates.
    pub fn set_state(&mut self, state: &State)
        ensures
            final(self).symbol() == old(self).symbol(),
            final(self).trace() == old(self).trace().push((state@, true)),
    {
        self.steps.push((*state, true));
        assert(self.trace() =~= old(self).trace().push((state@, true)));
    }

    /// Gives the agent its symbol.
    pub fn set_symbol(&mut self, symbol: isize)
        ensures
            final(self).symbol() == symbol,
            final(self).trace() == old(self).trace(),
    {
        self.symbol = symbol;
    }

    /// The moves open to the agent on the latest position: each empty cell,
    /// in ascending order, with the identity of the position that taking it
    /// leads to.
    pub fn next_moves(&self) -> (moves: Vec<(usize, isize)>)
        requires
            self.trace().len() > 0,
            self.symbol() == 1 || self.symbol() == -1,
        ensures
            moves@ == open_moves(self.trace().last().0, self.symbol() as int, 9),
    {
        let cur_state = &self.steps[self.steps.len() - 1].0;
        let ghost cur = cur_state@;
        assert(self.trace().last().0 == cur);
        let mut moves: Vec<(usize, isize)> = Vec::new();
        let mut i: usize = 0;
        while i < BOARD_SIZE
            invariant
                i <= 9,
                cur == cur_state@,
                self.symbol == 1 || self.symbol == -1,
                moves@ == open_moves(cur, self.symbol as int, i as nat),
            decreases 9 - i,
        {
            if let Ok(next) = cur_state.get_next_state(i, self.symbol) {
                proof {
                    use_type_invariant(&next);
                    lemma_hash_range(next@);
                }
                moves.push((i, next.get_hash()));
            }
            i += 1;
        }
        moves
    }

    /// Flags the latest position: the move made from it does not follow the
    /// estimates. Without a position nothing changes.
    pub fn mark_exploratory(&mut self)
        ensures
            final(self).symbol() == old(self).symbol(),
            final(self).trace() == flagged(old(self).trace(), true),
    {
        let length = self.steps.len();
        if length > 0 {
            let state = self.steps[length - 1].0;
            self.steps.set(length - 1, (state, false));
            assert(self.trace() =~= old(self).trace().update(
                old(self).trace().len() - 1,
                (old(self).trace().last().0, false),
            ));
        }
    }

    /// The moves open to the agent on the latest position.
    pub open spec fn moves(&self) -> Seq<(usize, isize)> {
        open_moves(self.trace().last().0, self.symbol() as int, 9)
    }

    /// An exploring move: flags the latest position and takes the open move
    /// number `r`, counted from zero in the order of `next_moves`.
    pub fn explore(&mut self, r: usize) -> (index: usize)
        requires
            old(self).trace().len() > 0,
            old(self).symbol() == 1 || old(self).symbol() == -1,
            r < old(self).moves().len(),
        ensures
            final(self).symbol() == old(self).symbol(),
            final(self).trace() == flagged(old(self).trace(), true),
            index == old(self).moves()[r as int].0,
            index < 9,
            old(self).trace().last().0[index as int] == 0,
    {
        let moves = self.next_moves();
        proof {
            lemma_open_moves(self.trace().last().0, self.symbol() as int, 9);
        }
        self.mark_exploratory();
        moves[r].0
    }

    /// The cell that the agent moves to. `ranks` holds, for each open move
    /// in the order of `next_moves`, the rank of the position that the move
    /// leads to: higher for a higher estimate. An exploring agent flags its
    /// latest position and takes any open cell; otherwise it takes a cell
    /// of the highest rank, any one of them where several tie.
    pub fn act(&mut self, explore: bool, ranks: &Vec<u64>) -> (index: usize)
        requires
            old(self).trace().len() > 0,
            old(self).symbol() == 1 || old(self).symbol() == -1,
            ranks@.len() == old(self).moves().len(),
            ranks@.len() > 0,
        ensures
            final(self).symbol() == old(self).symbol(),
            final(self).trace() == flagged(old(self).trace(), explore),
            index < 9,
            old(self).trace().last().0[index as int] == 0,
            exists|k: int|
                0 <= k < ranks@.len() && index == (#[trigger] old(self).moves()[k]).0 && (!explore
                    ==> forall|j: int| 0 <= j < ranks@.len() ==> #[trigger] ranks@[j] <= ranks@[k]),
    {
        let mut rng = rand::thread_rng();
        // choose randomly sometimes, so that every position is reached
        if explore {
            let r = random_index(&mut rng, ranks.len());
            return self.explore(r);
        }
        let moves = self.next_moves();
        let mut values: Vec<(u64, usize)> = Vec::new();
        let mut k: usize = 0;
        while k < moves.len()
            invariant
                k <= moves@.len(),
                moves@.len() == ranks@.len(),
                values@.len() == k,
                forall|j: int| 0 <= j < k ==> #[trigger] values@[j] == (ranks@[j], moves@[j].0),
            decreases moves@.len() - k,
        {
            values.push((ranks[k], moves[k].0));
            k += 1;
        }
        // decide randomly between equally valued moves
        let ghost given = values@;
        shuffle_values(&mut rng, &mut values);
        proof {
            given.to_multiset_ensures();
            values@.to_multiset_ensures();
            assert(values@.len() == values@.to_multiset().len());
            assert(given.len() == given.to_multiset().len());
        }
        let index = last_best(&values);
        proof {
            lemma_open_moves(self.trace().last().0, self.symbol() as int, 9);
            let j = choose|j: int| is_last_best(values@, j) && index == values@[j].1;
            lemma_same_candidates(given, values@, j);
            let k = choose|k: int|
                0 <= k < given.len() && values@[j].1 == (#[trigger] given[k]).1 && forall|i: int|
                    0 <= i < given.len() ==> (#[trigger] given[i]).0 <= given[k].0;
            assert(index == moves@[k].0);
            assert forall|i: int| 0 <= i < ranks@.len() implies #[trigger] ranks@[i]
                <= ranks@[k] by {
                assert(given[i].0 <= given[k].0);
            }
        }
        index
    }

    /// The name under which the agent's estimates are stored: one for the
    /// player who opens, another for every other symbol.
    pub fn policy_file(&self) -> (name: &'static str)
        ensures
            name@ == (if self.symbol() == 1 {
                "policy_first.bin"@
            } else {
                "policy_second.bin"@
            }),
    {
        if self.symbol == 1 {
            "policy_first.bin"
        } else {
            "policy_second.bin"
        }
    }

    /// The updates that the episode calls for, in the order in which they
    /// are applied. The episode's positions are forgotten.
    pub fn backup(&mut self) -> (steps: Vec<TdStep>)
        ensures
            final(self).symbol() == old(self).symbol(),
            final(self).trace() == Seq::<(Seq<int>, bool)>::empty(),
            steps@ == backup_steps(old(self).trace()),
    {
        let ghost trace = self.trace();
        let mut state_hashes: Vec<isize> = Vec::new();
        let mut k: usize = 0;
        while k < self.steps.len()
            invariant
                k <= self.steps@.len(),
                trace == self.trace(),
                state_hashes@.len() == k,
                forall|j: int| 0 <= j < k ==> #[trigger] state_hashes@[j] == key_of(trace[j].0),
            decreases self.steps@.len() - k,
        {
            let s = &self.steps[k].0;
            proof {
                use_type_invariant(s);
                lemma_hash_range(s@);
            }
            state_hashes.push(s.get_hash());
            k += 1;
        }
        let mut steps: Vec<TdStep> = Vec::new();
        if state_hashes.len() >= 2 {
            let mut i: usize = state_hashes.len() - 1;
            while i > 0
                invariant
                    i <= trace.len() - 1,
                    trace == self.trace(),
                    trace.len() >= 2,
                    state_hashes@.len() == trace.len() == self.steps@.len(),
                    forall|j: int|
                        0 <= j < trace.len() ==> #[trigger] state_hashes@[j] == key_of(trace[j].0),
                    steps@.len() == trace.len() - 1 - i,
                    forall|j: int|
                        0 <= j < steps@.len() ==> #[trigger] steps@[j] == backup_steps(trace)[j],
                decreases i,
            {
                i -= 1;
                steps.push(
                    TdStep {
                        state: state_hashes[i],
                        successor: state_hashes[i + 1],
                        greedy: self.steps[i].1,
                    },
                );
            }
        }
        assert(steps@ =~= backup_steps(trace));
        self.reset();
        steps
    }

    /// The starting estimate of every position of `all_states`, as the
    /// player `symbol` sees it.
    pub fn initial_estimates(symbol: isize, all_states: &HashMap<isize, (bool, isize)>) -> (priors:
        HashMap<isize, Prior>)
        ensures
            priors@.dom() == all_states@.dom(),
            forall|h: isize| #[trigger]
                all_states@.contains_key(h) ==> priors@[h] == prior_of(symbol, all_states@[h]),
    {
        let mut priors: HashMap<isize, Prior> = HashMap::new();
        for entry in it: all_states.iter()
            invariant
                it.seq() == all_states.iter().remaining(),
                forall|h: isize| #[trigger]
                    priors@.contains_key(h) ==> all_states@.contains_key(h) && priors@[h]
                        == prior_of(symbol, all_states@[h]),
                forall|j: int| 0 <= j < it.index() ==> priors@.contains_key(*(#[trigger] it.seq()[j]).0),
        {
            let (hash_val, end) = entry;
            let is_end = end.0;
            let prior = if is_end {
                let winner = end.1;
                if winner == symbol {
                    Prior::One
                } else if winner == 0isize {
                    Prior::Half
                } else {
                    Prior::Zero
                }
            } else {
                Prior::Half
            };
            priors.insert(*hash_val, prior);
        }
        assert(priors@.dom() =~= all_states@.dom());
        priors
    }
}

/// The candidate that `last_best` finds in a reordering is one of the
/// candidates as they were given, and none of them ranks higher.
proof fn lemma_same_candidates(values: Seq<(u64, usize)>, shuffled: Seq<(u64, usize)>, j: int)
    requires
        values.to_multiset() == shuffled.to_multiset(),
        is_last_best(shuffled, j),
    ensures
        exists|k: int|
            0 <= k < values.len() && shuffled[j].1 == (#[trigger] values[k]).1 && forall|i: int|
                0 <= i < values.len() ==> (#[trigger] values[i]).0 <= values[k].0,
{
    values.to_multiset_ensures();
    shuffled.to_multiset_ensures();
    assert(shuffled.contains(shuffled[j]));
    assert(shuffled.to_multiset().count(shuffled[j]) > 0);
    assert(values.to_multiset().count(shuffled[j]) > 0);
    assert(values.contains(shuffled[j]));
    let k = choose|k: int| 0 <= k < values.len() && values[k] == shuffled[j];
    assert forall|i: int| 0 <= i < values.len() implies (#[trigger] values[i]).0
        <= values[k].0 by {
        assert(values.contains(values[i]));
        assert(values.to_multiset().count(values[i]) > 0);
        assert(shuffled.to_multiset().count(values[i]) > 0);
        assert(shuffled.contains(values[i]));
        let l = choose|l: int| 0 <= l < shuffled.len() && shuffled[l] == values[i];
        assert(shuffled[l].0 <= shuffled[j].0);
    }
    assert(0 <= k < values.len() && shuffled[j].1 == values[k].1);
}

} // verus!
