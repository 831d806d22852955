//! There are no more than `n!` tours of `n` nodes, so that a search whose
//! tours are all different makes fewer than `n!` moves.

use vstd::prelude::*;
use crate::drawing::lemma_tour_has_a_drawing;
use crate::helpers::{are_draws, drawn_tour};
use crate::model::is_tour;

verus! {

/// The product of the numbers from 1 to `n`.
pub open spec fn factorial(n: nat) -> nat
    decreases n,
{
    if n == 0 {
        1
    } else {
        n * factorial((n - 1) as nat)
    }
}

/// The number that stands for a sequence of draws, where the first draw
/// counts for as many sequences as the other draws can make.
pub open spec fn rank_of(draws: Seq<usize>) -> int
    decreases draws.len(),
{
    if draws.len() == 0 {
        0
    } else {
        draws[0] * factorial((draws.len() - 1) as nat) + rank_of(draws.drop_first())
    }
}

/// What is left of the draws after the first are draws for one node
/// fewer.
proof fn lemma_rest_are_draws(draws: Seq<usize>, count: nat)
    requires
        are_draws(draws, count),
        count > 0,
    ensures
        are_draws(draws.drop_first(), (count - 1) as nat),
        draws[0] < count,
{
    assert(draws[0] < count - 0);
    assert forall|k: int| 0 <= k < count - 1 implies #[trigger] draws.drop_first()[k] < count - 1
        - k by {
        assert(draws[k + 1] < count - (k + 1));
    }
}

/// The number of a sequence of draws for `count` nodes is below `count!`.
pub proof fn lemma_rank_is_below_factorial(draws: Seq<usize>, count: nat)
    requires
        are_draws(draws, count),
    ensures
        0 <= rank_of(draws) < factorial(count),
    decreases count,
{
    if count == 0 {
    } else {
        lemma_rest_are_draws(draws, count);
        lemma_rank_is_below_factorial(draws.drop_first(), (count - 1) as nat);
        let rest = factorial((count - 1) as nat) as int;
        let first = draws[0] as int;
        assert(first * rest + rest <= count * rest) by (nonlinear_arith)
            requires
                0 <= first < count,
                rest >= 0,
        ;
        assert(first * rest >= 0) by (nonlinear_arith)
            requires
                0 <= first,
                rest >= 0,
        ;
    }
}

/// Two sequences of draws with the same number are the same.
pub proof fn lemma_rank_tells_draws_apart(draws: Seq<usize>, other: Seq<usize>, count: nat)
    requires
        are_draws(draws, count),
        are_draws(other, count),
        rank_of(draws) == rank_of(other),
    ensures
        draws == other,
    decreases count,
{
    if count == 0 {
        assert(draws =~= other);
    } else {
        lemma_rest_are_draws(draws, count);
        lemma_rest_are_draws(other, count);
        lemma_rank_is_below_factorial(draws.drop_first(), (count - 1) as nat);
        lemma_rank_is_below_factorial(other.drop_first(), (count - 1) as nat);
        let rest = factorial((count - 1) as nat) as int;
        let a = draws[0] as int;
        let b = other[0] as int;
        let r = rank_of(draws.drop_first());
        let s = rank_of(other.drop_first());
        assert(a == b && r == s) by (nonlinear_arith)
            requires
                a * rest + r == b * rest + s,
                0 <= r < rest,
                0 <= s < rest,
        ;
        lemma_rank_tells_draws_apart(draws.drop_first(), other.drop_first(), (count - 1) as nat);
        assert(draws =~= other) by {
            assert forall|k: int| 0 <= k < count implies draws[k] == other[k] by {
                if k > 0 {
                    assert(draws.drop_first()[k - 1] == other.drop_first()[k - 1]);
                }
            }
        }
    }
}

/// Numbers below `bound` that are all different are `bound` at most.
pub proof fn lemma_different_numbers_are_few(numbers: Seq<int>, bound: nat)
    requires
        forall|k: int| 0 <= k < numbers.len() ==> 0 <= #[trigger] numbers[k] < bound,
        forall|i: int, j: int| 0 <= i < j < numbers.len() ==> numbers[i] != numbers[j],
    ensures
        numbers.len() <= bound,
    decreases bound,
{
    if bound == 0 {
        if numbers.len() > 0 {
            assert(0 <= numbers[0] < bound);
        }
    } else if exists|i: int| 0 <= i < numbers.len() && numbers[i] == bound - 1 {
        let i = choose|i: int| 0 <= i < numbers.len() && numbers[i] == bound - 1;
        let others = numbers.remove(i);
        let came_from = |k: int| if k < i { k } else { k + 1 };
        assert forall|k: int| 0 <= k < others.len() implies 0 <= #[trigger] others[k] < bound
            - 1 by {
            assert(others[k] == numbers[came_from(k)]);
            if came_from(k) < i {
                assert(numbers[came_from(k)] != numbers[i]);
            } else {
                assert(numbers[i] != numbers[came_from(k)]);
            }
        }
        assert forall|x: int, y: int| 0 <= x < y < others.len() implies others[x] != others[y] by {
            assert(others[x] == numbers[came_from(x)]);
            assert(others[y] == numbers[came_from(y)]);
        }
        lemma_different_numbers_are_few(others, (bound - 1) as nat);
    } else {
        assert forall|k: int| 0 <= k < numbers.len() implies 0 <= #[trigger] numbers[k] < bound
            - 1 by {}
        lemma_different_numbers_are_few(numbers, (bound - 1) as nat);
    }
}

/// The number of the draws that give the tour `t`.
pub open spec fn tour_rank(t: Seq<usize>, n: nat) -> int {
    rank_of(choose|draws: Seq<usize>| are_draws(draws, n) && drawn_tour(n, draws, false) == t)
}

/// Tours of `n` nodes that are all different are `n!` at most.
pub proof fn lemma_different_tours_are_few(tours: Seq<Seq<usize>>, n: nat)
    requires
        n <= usize::MAX,
        forall|k: int| 0 <= k < tours.len() ==> is_tour(#[trigger] tours[k], n),
        forall|i: int, j: int| 0 <= i < j < tours.len() ==> tours[i] != tours[j],
    ensures
        tours.len() <= factorial(n),
{
    let ranks = Seq::new(tours.len(), |k: int| tour_rank(tours[k], n));
    assert forall|k: int| 0 <= k < ranks.len() implies 0 <= #[trigger] ranks[k] < factorial(n) by {
        let witness = lemma_tour_has_a_drawing(tours[k], n, false);
        let draws = choose|draws: Seq<usize>|
            are_draws(draws, n) && drawn_tour(n, draws, false) == tours[k];
        lemma_rank_is_below_factorial(draws, n);
    }
    assert forall|i: int, j: int| 0 <= i < j < ranks.len() implies ranks[i] != ranks[j] by {
        let witness_i = lemma_tour_has_a_drawing(tours[i], n, false);
        let witness_j = lemma_tour_has_a_drawing(tours[j], n, false);
        let di = choose|draws: Seq<usize>|
            are_draws(draws, n) && drawn_tour(n, draws, false) == tours[i];
        let dj = choose|draws: Seq<usize>|
            are_draws(draws, n) && drawn_tour(n, draws, false) == tours[j];
        if ranks[i] == ranks[j] {
            lemma_rank_tells_draws_apart(di, dj, n);
        }
    }
    lemma_different_numbers_are_few(ranks, factorial(n));
}

} // verus!
