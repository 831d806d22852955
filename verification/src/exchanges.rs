//! The Cayley distance is the least number of exchanges of two entries
//! that turn one permutation into another.

use vstd::prelude::*;
use crate::model::{is_tour, swapped};
use crate::permutation::{
    cayley_distance, cycle_count, identity, lemma_cycle_count_le, lemma_distance_to_self,
    lemma_identity_cycles, lemma_position_of, lemma_relabeling_is_tour, lemma_resolved_adds_cycle,
    lemma_tour_is_one_to_one, lemma_tour_positions_fit, lemma_without_last_is_tour, position_of,
    relabeling, resolved_at, without_last,
};
use crate::rearrange::lemma_swapped_is_tour;

verus! {

/// Each step names two positions of a permutation of `n` nodes.
pub open spec fn are_exchanges(steps: Seq<(int, int)>, n: nat) -> bool {
    forall|k: int|
        0 <= k < steps.len() ==> 0 <= (#[trigger] steps[k]).0 < n && 0 <= steps[k].1 < n
}

/// The permutation after the entries at the two positions of each step
/// have been exchanged, step by step.
pub open spec fn after_exchanges(p: Seq<usize>, steps: Seq<(int, int)>) -> Seq<usize>
    decreases steps.len(),
{
    if steps.len() == 0 {
        p
    } else {
        let before = after_exchanges(p, steps.drop_last());
        swapped(before, steps.last().0, steps.last().1)
    }
}

/// Exchanging two entries of a permutation splits one cycle in two or
/// joins two cycles in one: the number of cycles changes by one.
pub proof fn lemma_exchange_changes_cycles(q: Seq<usize>, n: nat, a: int, b: int)
    requires
        is_tour(q, n),
        0 <= a < n,
        0 <= b < n,
        a != b,
    ensures
        cycle_count(swapped(q, a, b)) == cycle_count(q) + 1 || cycle_count(swapped(q, a, b))
            == cycle_count(q) - 1,
    decreases n,
{
    let last = n - 1;
    let s = swapped(q, a, b);
    let r = without_last(q);
    let rs = without_last(s);
    lemma_swapped_is_tour(q, n, a, b);
    lemma_without_last_is_tour(q, n);
    lemma_position_of(q, n, last);
    let j = position_of(q, last);
    assert(q[a] < n && q[b] < n && q[last] < n);
    if a < last && b < last {
        assert(rs =~= swapped(r, a, b)) by {
            assert forall|i: int| 0 <= i < last implies rs[i] == swapped(r, a, b)[i] by {
                if q[i] == last {
                    lemma_tour_is_one_to_one(q, n, i, j);
                }
                if q[a] == last {
                    lemma_tour_is_one_to_one(q, n, a, j);
                }
                if q[b] == last {
                    lemma_tour_is_one_to_one(q, n, b, j);
                }
            }
        }
        lemma_exchange_changes_cycles(r, (n - 1) as nat, a, b);
    } else {
        // One of the two positions is the last; `x` is the other.
        let x = if a == last { b } else { a };
        assert(s[last] == q[x] && s[x] == q[last]);
        if q[last] == last {
            assert(q[x] != last) by {
                if q[x] == last {
                    lemma_tour_is_one_to_one(q, n, x, last);
                }
            }
            assert(rs =~= r) by {
                assert forall|i: int| 0 <= i < last implies rs[i] == r[i] by {
                    if q[i] == last {
                        lemma_tour_is_one_to_one(q, n, i, last);
                    }
                }
            }
        } else if j == x {
            assert(rs =~= r) by {
                assert forall|i: int| 0 <= i < last implies rs[i] == r[i] by {
                    if q[i] == last {
                        lemma_tour_is_one_to_one(q, n, i, j);
                    }
                }
            }
        } else {
            assert(q[x] != last) by {
                if q[x] == last {
                    lemma_tour_is_one_to_one(q, n, x, j);
                }
            }
            assert(rs =~= swapped(r, x, j)) by {
                assert forall|i: int| 0 <= i < last implies rs[i] == swapped(r, x, j)[i] by {
                    if q[i] == last {
                        lemma_tour_is_one_to_one(q, n, i, j);
                    }
                }
            }
            lemma_exchange_changes_cycles(r, (n - 1) as nat, x, j);
        }
    }
}

/// Exchanging two entries of the second permutation exchanges two
/// entries of the permutation that turns the first into the second.
pub proof fn lemma_relabeling_after_exchange(
    p1: Seq<usize>,
    p2: Seq<usize>,
    n: nat,
    x: int,
    y: int,
)
    requires
        is_tour(p1, n),
        is_tour(p2, n),
        0 <= x < n,
        0 <= y < n,
    ensures
        relabeling(p1, swapped(p2, x, y)) == swapped(
            relabeling(p1, p2),
            p1[x] as int,
            p1[y] as int,
        ),
{
    let q = relabeling(p1, p2);
    let after = relabeling(p1, swapped(p2, x, y));
    assert(p1[x] < n && p1[y] < n);
    lemma_position_of(p1, n, p1[x] as int);
    lemma_position_of(p1, n, p1[y] as int);
    assert forall|v: int| 0 <= v < n implies after[v] == swapped(
        q,
        p1[x] as int,
        p1[y] as int,
    )[v] by {
        lemma_position_of(p1, n, v);
    }
    assert(after =~= swapped(q, p1[x] as int, p1[y] as int));
}

/// One exchange of two entries moves a permutation by one: nearer to
/// another permutation, or farther from it.
pub proof fn lemma_exchange_moves_by_one(p1: Seq<usize>, p2: Seq<usize>, n: nat, x: int, y: int)
    requires
        is_tour(p1, n),
        is_tour(p2, n),
        0 <= x < n,
        0 <= y < n,
        x != y,
    ensures
        cayley_distance(p1, swapped(p2, x, y)) == cayley_distance(p1, p2) + 1 || cayley_distance(
            p1,
            swapped(p2, x, y),
        ) == cayley_distance(p1, p2) - 1,
{
    lemma_relabeling_after_exchange(p1, p2, n, x, y);
    lemma_relabeling_is_tour(p1, p2, n);
    assert(p1[x] < n && p1[y] < n);
    if p1[x] == p1[y] {
        lemma_tour_is_one_to_one(p1, n, x, y);
    }
    lemma_exchange_changes_cycles(relabeling(p1, p2), n, p1[x] as int, p1[y] as int);
}

/// No number of exchanges below the distance turns one permutation into
/// another.
pub proof fn lemma_exchanges_needed(p1: Seq<usize>, n: nat, steps: Seq<(int, int)>)
    requires
        is_tour(p1, n),
        are_exchanges(steps, n),
    ensures
        is_tour(after_exchanges(p1, steps), n),
        cayley_distance(p1, after_exchanges(p1, steps)) <= steps.len(),
    decreases steps.len(),
{
    if steps.len() == 0 {
        lemma_distance_to_self(p1, n);
    } else {
        let before = after_exchanges(p1, steps.drop_last());
        let (x, y) = steps.last();
        lemma_exchanges_needed(p1, n, steps.drop_last());
        lemma_swapped_is_tour(before, n, x, y);
        if x == y {
            assert(swapped(before, x, y) =~= before);
        } else {
            lemma_exchange_moves_by_one(p1, before, n, x, y);
        }
    }
}

/// A permutation with as many cycles as positions leaves every position
/// in place.
pub proof fn lemma_all_cycles_is_identity(q: Seq<usize>, n: nat)
    requires
        is_tour(q, n),
        cycle_count(q) == n,
    ensures
        q == identity(n),
    decreases n,
{
    if n > 0 {
        let r = without_last(q);
        lemma_cycle_count_le(r);
        lemma_without_last_is_tour(q, n);
        lemma_all_cycles_is_identity(r, (n - 1) as nat);
        lemma_tour_positions_fit(q, n);
        assert forall|i: int| 0 <= i < n implies q[i] == identity(n)[i] by {
            if i < n - 1 {
                assert(r[i] == i);
                if q[i] == n - 1 {
                    lemma_tour_is_one_to_one(q, n, i, n - 1);
                }
            }
        }
    }
    assert(q =~= identity(n));
}

/// As many exchanges as the distance turn one permutation into another.
pub proof fn lemma_exchanges_suffice(p1: Seq<usize>, p2: Seq<usize>, n: nat) -> (steps: Seq<
    (int, int),
>)
    requires
        is_tour(p1, n),
        is_tour(p2, n),
    ensures
        are_exchanges(steps, n),
        steps.len() == cayley_distance(p1, p2),
        after_exchanges(p1, steps) == p2,
    decreases cayley_distance(p1, p2),
{
    let q = relabeling(p1, p2);
    lemma_relabeling_is_tour(p1, p2, n);
    lemma_cycle_count_le(q);
    if cycle_count(q) == n {
        lemma_all_cycles_is_identity(q, n);
        assert(p1 =~= p2) by {
            assert forall|i: int| 0 <= i < n implies p1[i] == p2[i] by {
                assert(p1[i] < n);
                assert(q[p1[i] as int] == p2[i]);
            }
        }
        Seq::empty()
    } else {
        lemma_tour_positions_fit(q, n);
        // Some position is not in place, else all cycles would be there.
        if forall|i: int| 0 <= i < n ==> q[i] == i {
            assert(q =~= identity(n));
            lemma_identity_cycles(n);
        }
        let b = choose|b: int| 0 <= b < n && q[b] != b;
        let a = q[b] as int;
        assert(q[b] < n);
        lemma_resolved_adds_cycle(q, n, b);
        assert(resolved_at(q, b) =~= swapped(q, a, b));
        lemma_position_of(p1, n, a);
        lemma_position_of(p1, n, b);
        let x = position_of(p1, a);
        let y = position_of(p1, b);
        let nearer = swapped(p2, x, y);
        lemma_swapped_is_tour(p2, n, x, y);
        lemma_relabeling_after_exchange(p1, p2, n, x, y);
        let shorter = lemma_exchanges_suffice(p1, nearer, n);
        let steps = shorter.push((x, y));
        assert(steps.drop_last() =~= shorter);
        assert(swapped(nearer, x, y) =~= p2);
        steps
    }
}

/// The distance between two permutations is the least number of
/// exchanges of two entries that turn the first into the second: some
/// exchanges of that number do, and none of a lesser number.
pub proof fn lemma_distance_is_least(p1: Seq<usize>, p2: Seq<usize>, n: nat)
    requires
        is_tour(p1, n),
        is_tour(p2, n),
    ensures
        exists|steps: Seq<(int, int)>|
            are_exchanges(steps, n) && steps.len() == cayley_distance(p1, p2)
                && #[trigger] after_exchanges(p1, steps) == p2,
        forall|steps: Seq<(int, int)>|
            are_exchanges(steps, n) && #[trigger] after_exchanges(p1, steps) == p2
                ==> cayley_distance(p1, p2) <= steps.len(),
{
    let enough = lemma_exchanges_suffice(p1, p2, n);
    assert(after_exchanges(p1, enough) == p2);
    assert forall|steps: Seq<(int, int)>|
        are_exchanges(steps, n) && #[trigger] after_exchanges(p1, steps)
            == p2 implies cayley_distance(p1, p2) <= steps.len() by {
        lemma_exchanges_needed(p1, n, steps);
    }
}

} // verus!
