//! Drawing a tour node by node: each tour is drawn by one sequence of
//! draws and no other, so that draws that are uniform give tours that
//! are.

use vstd::prelude::*;
use crate::helpers::{are_draws, drawn_order, drawn_tour, free_nodes};
use crate::model::{is_duplicate_free, is_tour};

verus! {

/// `t` holds the nodes of `remaining`, each once, in some order.
pub open spec fn is_order_of(t: Seq<usize>, remaining: Seq<usize>) -> bool {
    &&& t.len() == remaining.len()
    &&& is_duplicate_free(t)
    &&& forall|i: int| 0 <= i < t.len() ==> remaining.contains(#[trigger] t[i])
}

/// Taking a node out of a list without duplicates leaves one.
proof fn lemma_remove_keeps_nodes_apart(remaining: Seq<usize>, i: int)
    requires
        is_duplicate_free(remaining),
        0 <= i < remaining.len(),
    ensures
        is_duplicate_free(remaining.remove(i)),
        !remaining.remove(i).contains(remaining[i]),
        forall|v: usize|
            remaining.contains(v) && v != remaining[i] ==> remaining.remove(i).contains(v),
{
    let left = remaining.remove(i);
    let came_from = |k: int| if k < i { k } else { k + 1 };
    assert forall|k: int| 0 <= k < left.len() implies #[trigger] left[k] == remaining[came_from(
        k,
    )] by {}
    assert forall|x: int, y: int| 0 <= x < y < left.len() implies left[x] != left[y] by {
        assert(left[x] == remaining[came_from(x)]);
        assert(left[y] == remaining[came_from(y)]);
    }
    if left.contains(remaining[i]) {
        let k = choose|k: int| 0 <= k < left.len() && left[k] == remaining[i];
        assert(left[k] == remaining[came_from(k)]);
        if came_from(k) < i {
            assert(remaining[came_from(k)] != remaining[i]);
        } else {
            assert(remaining[i] != remaining[came_from(k)]);
        }
    }
    assert forall|v: usize| remaining.contains(v) && v != remaining[i] implies left.contains(
        v,
    ) by {
        let k = choose|k: int| 0 <= k < remaining.len() && remaining[k] == v;
        let at = if k < i { k } else { k - 1 };
        assert(left[at] == v);
    }
}

/// The draws take as many nodes as there are draws, and the first draw
/// names the first of them.
proof fn lemma_drawn_order_starts(remaining: Seq<usize>, draws: Seq<usize>)
    requires
        draws.len() > 0,
    ensures
        drawn_order(remaining, draws)[0] == remaining[draws[0] as int],
        drawn_order(remaining, draws).drop_first() == drawn_order(
            remaining.remove(draws[0] as int),
            draws.drop_first(),
        ),
{
    let rest = drawn_order(remaining.remove(draws[0] as int), draws.drop_first());
    assert((seq![remaining[draws[0] as int]] + rest).drop_first() =~= rest);
}

/// Two sequences of draws that take the nodes out in the same order are
/// the same.
pub proof fn lemma_order_has_one_drawing(
    remaining: Seq<usize>,
    draws: Seq<usize>,
    other: Seq<usize>,
)
    requires
        is_duplicate_free(remaining),
        are_draws(draws, remaining.len()),
        are_draws(other, remaining.len()),
        drawn_order(remaining, draws) == drawn_order(remaining, other),
    ensures
        draws == other,
    decreases remaining.len(),
{
    if remaining.len() > 0 {
        lemma_drawn_order_starts(remaining, draws);
        lemma_drawn_order_starts(remaining, other);
        let i = draws[0] as int;
        let j = other[0] as int;
        assert(draws[0] < remaining.len() - 0);
        assert(other[0] < remaining.len() - 0);
        if i < j {
            assert(remaining[i] != remaining[j]);
        } else if j < i {
            assert(remaining[j] != remaining[i]);
        }
        lemma_remove_keeps_nodes_apart(remaining, i);
        assert(are_draws(draws.drop_first(), remaining.remove(i).len())) by {
            assert forall|k: int| 0 <= k < draws.len() - 1 implies #[trigger] draws.drop_first()[k]
                < remaining.len() - 1 - k by {
                assert(draws[k + 1] < remaining.len() - (k + 1));
            }
        }
        assert(are_draws(other.drop_first(), remaining.remove(i).len())) by {
            assert forall|k: int| 0 <= k < other.len() - 1 implies #[trigger] other.drop_first()[k]
                < remaining.len() - 1 - k by {
                assert(other[k + 1] < remaining.len() - (k + 1));
            }
        }
        lemma_order_has_one_drawing(remaining.remove(i), draws.drop_first(), other.drop_first());
        assert(draws =~= other) by {
            assert forall|k: int| 0 <= k < draws.len() implies draws[k] == other[k] by {
                if k > 0 {
                    assert(draws.drop_first()[k - 1] == other.drop_first()[k - 1]);
                }
            }
        }
    } else {
        assert(draws =~= other);
    }
}

/// Every order of the nodes is drawn by some sequence of draws.
pub proof fn lemma_order_has_a_drawing(remaining: Seq<usize>, t: Seq<usize>) -> (draws: Seq<usize>)
    requires
        remaining.len() <= usize::MAX,
        is_duplicate_free(remaining),
        is_order_of(t, remaining),
    ensures
        are_draws(draws, remaining.len()),
        drawn_order(remaining, draws) == t,
    decreases remaining.len(),
{
    if remaining.len() == 0 {
        assert(t =~= Seq::<usize>::empty());
        Seq::empty()
    } else {
        assert(remaining.contains(t[0]));
        let i = choose|i: int| 0 <= i < remaining.len() && remaining[i] == t[0];
        let left = remaining.remove(i);
        let rest = t.drop_first();
        lemma_remove_keeps_nodes_apart(remaining, i);
        assert(is_order_of(rest, left)) by {
            assert forall|x: int, y: int| 0 <= x < y < rest.len() implies rest[x] != rest[y] by {
                assert(t[x + 1] != t[y + 1]);
            }
            assert forall|k: int| 0 <= k < rest.len() implies left.contains(
                #[trigger] rest[k],
            ) by {
                assert(rest[k] == t[k + 1]);
                assert(t[0] != t[k + 1]);
                assert(remaining.contains(t[k + 1]));
            }
        }
        let others = lemma_order_has_a_drawing(left, rest);
        let draws = seq![i as usize] + others;
        assert(draws.drop_first() =~= others);
        assert(draws[0] == i);
        assert(drawn_order(remaining, draws) =~= seq![t[0]] + rest);
        assert(seq![t[0]] + rest =~= t);
        assert forall|k: int| 0 <= k < remaining.len() implies #[trigger] draws[k]
            < remaining.len() - k by {
            if k > 0 {
                assert(draws[k] == others[k - 1]);
            }
        }
        draws
    }
}

/// The nodes that a tour is drawn from are in a list without duplicates.
proof fn lemma_free_nodes_are_apart(node_count: nat, preserve_first: bool)
    requires
        node_count <= usize::MAX,
    ensures
        is_duplicate_free(free_nodes(node_count, preserve_first)),
{
}

/// Every tour of `node_count` nodes, with node 0 first where
/// `preserve_first` asks for it, is drawn by some sequence of draws.
pub proof fn lemma_tour_has_a_drawing(
    t: Seq<usize>,
    node_count: nat,
    preserve_first: bool,
) -> (draws: Seq<usize>)
    requires
        node_count <= usize::MAX,
        is_tour(t, node_count),
        preserve_first && node_count > 0 ==> t[0] == 0,
    ensures
        are_draws(draws, free_nodes(node_count, preserve_first).len()),
        drawn_tour(node_count, draws, preserve_first) == t,
{
    let free = free_nodes(node_count, preserve_first);
    lemma_free_nodes_are_apart(node_count, preserve_first);
    if preserve_first && node_count > 0 {
        let rest = t.drop_first();
        assert(is_order_of(rest, free)) by {
            assert forall|x: int, y: int| 0 <= x < y < rest.len() implies rest[x] != rest[y] by {
                assert(t[x + 1] != t[y + 1]);
            }
            assert forall|k: int| 0 <= k < rest.len() implies free.contains(
                #[trigger] rest[k],
            ) by {
                assert(rest[k] == t[k + 1]);
                assert(t[0] != t[k + 1]);
                assert(t[k + 1] < node_count);
                assert(free[rest[k] - 1] == rest[k]);
            }
        }
        let draws = lemma_order_has_a_drawing(free, rest);
        assert(seq![0usize] + rest =~= t);
        draws
    } else {
        assert(is_order_of(t, free)) by {
            assert forall|k: int| 0 <= k < t.len() implies free.contains(#[trigger] t[k]) by {
                assert(t[k] < node_count);
                assert(free[t[k] as int] == t[k]);
            }
        }
        lemma_order_has_a_drawing(free, t)
    }
}

/// Two sequences of draws that give the same tour are the same.
pub proof fn lemma_tour_has_one_drawing(
    node_count: nat,
    draws: Seq<usize>,
    other: Seq<usize>,
    preserve_first: bool,
)
    requires
        node_count <= usize::MAX,
        are_draws(draws, free_nodes(node_count, preserve_first).len()),
        are_draws(other, free_nodes(node_count, preserve_first).len()),
        drawn_tour(node_count, draws, preserve_first) == drawn_tour(
            node_count,
            other,
            preserve_first,
        ),
    ensures
        draws == other,
{
    let free = free_nodes(node_count, preserve_first);
    lemma_free_nodes_are_apart(node_count, preserve_first);
    if preserve_first && node_count > 0 {
        let one = drawn_order(free, draws);
        let two = drawn_order(free, other);
        assert((seq![0usize] + one).drop_first() =~= one);
        assert((seq![0usize] + two).drop_first() =~= two);
    }
    lemma_order_has_one_drawing(free, draws, other);
}

} // verus!
