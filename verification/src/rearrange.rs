//! How the length of a tour behaves when the tour is rearranged: rotated,
//! reversed as a whole, or reversed between two of its edges.

use vstd::prelude::*;
use vstd::arithmetic::div_mod::{
    lemma_add_mod_noop_right, lemma_mod_sub_multiples_vanish, lemma_small_mod,
};
use crate::model::{
    edge_cost, edge_costs, is_symmetric, is_tour, reversed_between, rotated, swapped,
    tour_length, visits_nodes,
};
use crate::summation::{lemma_sum_agree, lemma_sum_mirror, lemma_sum_shift, lemma_sum_split};

verus! {

/// For `0 <= x < 2n`, the remainder of `x` by `n` is `x` itself or `x - n`.
pub proof fn lemma_wrap_once(x: int, n: int)
    requires
        0 < n,
        0 <= x < 2 * n,
    ensures
        x % n == if x < n { x } else { x - n },
{
    if x < n {
        lemma_small_mod(x as nat, n as nat);
    } else {
        lemma_small_mod((x - n) as nat, n as nat);
        lemma_mod_sub_multiples_vanish(x, n);
    }
}

/// The gain of the 2-opt move on the edges that leave positions `i` and
/// `j`: the cost of the two edges it adds less the cost of the two it
/// removes. A negative gain shortens the tour.
pub open spec fn two_opt_gain(t: Seq<usize>, m: Seq<Seq<i32>>, i: int, j: int) -> int {
    let after_j = (j + 1) % (t.len() as int);
    m[t[i] as int][t[j] as int] + m[t[i + 1] as int][t[after_j] as int]
        - m[t[i] as int][t[i + 1] as int] - m[t[j] as int][t[after_j] as int]
}

/// A tour has the same length from whichever of its nodes it is started.
pub proof fn lemma_tour_length_rotation(t: Seq<usize>, m: Seq<Seq<i32>>, r: int)
    ensures
        tour_length(rotated(t, r), m) == tour_length(t, m),
{
    let n = t.len() as int;
    if n > 0 {
        let rot = rotated(t, r);
        let f = edge_costs(t, m);
        let g = edge_costs(rot, m);
        let s = r % n;
        assert forall|k: int| 0 <= k < n implies #[trigger] rot[k] == t[if k + s < n {
            k + s
        } else {
            k + s - n
        }] by {
            lemma_add_mod_noop_right(k, r, n);
            lemma_wrap_once(k + s, n);
        }
        assert forall|k: int| 0 <= k < n - s implies #[trigger] g(k) == f(k + s) by {
            lemma_wrap_once(k + 1, n);
            lemma_wrap_once(k + s + 1, n);
            assert(g(k) == edge_cost(rot, m, k));
            assert(f(k + s) == edge_cost(t, m, k + s));
        }
        assert forall|k: int| n - s <= k < n implies #[trigger] g(k) == f(k + (s - n)) by {
            lemma_wrap_once(k + 1, n);
            lemma_wrap_once(k + s - n + 1, n);
            assert(g(k) == edge_cost(rot, m, k));
            assert(f(k + (s - n)) == edge_cost(t, m, k + (s - n)));
        }
        lemma_sum_split(g, 0, n - s, n);
        lemma_sum_shift(f, g, 0, n - s, s);
        lemma_sum_shift(f, g, n - s, n, s - n);
        lemma_sum_split(f, 0, s, n);
    }
}

/// Over a symmetric matrix, a tour is as long walked backwards as forwards.
pub proof fn lemma_tour_length_reversal(t: Seq<usize>, m: Seq<Seq<i32>>)
    requires
        is_symmetric(m),
        visits_nodes(t, m.len()),
    ensures
        tour_length(t.reverse(), m) == tour_length(t, m),
{
    let n = t.len() as int;
    if n > 0 {
        let rev = t.reverse();
        let f = edge_costs(t, m);
        let g = edge_costs(rev, m);
        assert forall|k: int| 0 <= k < n - 1 implies #[trigger] g(k) == f(0 + (n - 1) - 1 - k) by {
            lemma_wrap_once(k + 1, n);
            lemma_wrap_once(n - 1 - k, n);
            let from = t[n - 1 - k] as int;
            let to = t[n - 2 - k] as int;
            assert(g(k) == edge_cost(rev, m, k) == m[from][to]);
            assert(f(n - 2 - k) == edge_cost(t, m, n - 2 - k) == m[to][from]);
            assert(m[from][to] == m[to][from]);
        }
        lemma_sum_mirror(f, g, 0, n - 1);
        assert(g(n - 1) == f(n - 1)) by {
            lemma_wrap_once(n, n);
            let last = t[n - 1] as int;
            let first = t[0] as int;
            assert(g(n - 1) == edge_cost(rev, m, n - 1) == m[first][last]);
            assert(f(n - 1) == edge_cost(t, m, n - 1) == m[last][first]);
            assert(m[first][last] == m[last][first]);
        }
    }
}

/// Over a symmetric matrix, reversing the stretch between the edges that
/// leave positions `a` and `b` changes the length of the tour by exactly
/// the gain of that 2-opt move.
pub proof fn lemma_reversal_gain(t: Seq<usize>, m: Seq<Seq<i32>>, a: int, b: int)
    requires
        is_symmetric(m),
        visits_nodes(t, m.len()),
        0 <= a < b < t.len(),
    ensures
        tour_length(reversed_between(t, a + 1, b), m) == tour_length(t, m) + two_opt_gain(
            t,
            m,
            a,
            b,
        ),
{
    let n = t.len() as int;
    let rev = reversed_between(t, a + 1, b);
    let f = edge_costs(t, m);
    let g = edge_costs(rev, m);
    let after_b = (b + 1) % n;
    lemma_wrap_once(b + 1, n);
    assert forall|k: int| 0 <= k < a implies #[trigger] f(k) == g(k) by {
        lemma_wrap_once(k + 1, n);
        assert(f(k) == edge_cost(t, m, k));
        assert(g(k) == edge_cost(rev, m, k));
    }
    assert forall|k: int| a + 1 <= k < b implies #[trigger] g(k) == f((a + 1) + b - 1 - k) by {
        lemma_wrap_once(k + 1, n);
        lemma_wrap_once(a + b - k + 1, n);
        let from = t[a + 1 + b - k] as int;
        let to = t[a + b - k] as int;
        assert(g(k) == edge_cost(rev, m, k) == m[from][to]);
        assert(f(a + b - k) == edge_cost(t, m, a + b - k) == m[to][from]);
        assert(m[from][to] == m[to][from]);
    }
    assert forall|k: int| b + 1 <= k < n implies #[trigger] f(k) == g(k) by {
        lemma_wrap_once(k + 1, n);
        assert(f(k) == edge_cost(t, m, k));
        assert(g(k) == edge_cost(rev, m, k));
    }
    lemma_sum_agree(f, g, 0, a);
    lemma_sum_mirror(f, g, a + 1, b);
    lemma_sum_agree(f, g, b + 1, n);
    lemma_sum_split(f, 0, a + 1, n);
    lemma_sum_split(f, a + 1, b + 1, n);
    lemma_sum_split(g, 0, a + 1, n);
    lemma_sum_split(g, a + 1, b + 1, n);
    assert(g(a) == m[t[a] as int][t[b] as int]) by {
        lemma_wrap_once(a + 1, n);
        assert(g(a) == edge_cost(rev, m, a));
    }
    assert(g(b) == m[t[a + 1] as int][t[after_b] as int]) by {
        assert(g(b) == edge_cost(rev, m, b));
    }
    assert(f(a) == m[t[a] as int][t[a + 1] as int]) by {
        lemma_wrap_once(a + 1, n);
        assert(f(a) == edge_cost(t, m, a));
    }
    assert(f(b) == m[t[b] as int][t[after_b] as int]) by {
        assert(f(b) == edge_cost(t, m, b));
    }
}

/// Exchanging two entries of a tour gives a tour.
pub proof fn lemma_swapped_is_tour(t: Seq<usize>, n: nat, i: int, j: int)
    requires
        is_tour(t, n),
        0 <= i < n,
        0 <= j < n,
    ensures
        is_tour(swapped(t, i, j), n),
{
    let s = swapped(t, i, j);
    let at = |k: int| if k == i { j } else if k == j { i } else { k };
    assert forall|k: int| 0 <= k < n implies #[trigger] s[k] == t[at(k)] by {}
    assert forall|x: int, y: int| 0 <= x < y < s.len() implies s[x] != s[y] by {
        assert(s[x] == t[at(x)] && s[y] == t[at(y)]);
        if at(x) < at(y) {
            assert(t[at(x)] != t[at(y)]);
        } else {
            assert(t[at(y)] != t[at(x)]);
        }
    }
}

/// Reversing a stretch of a tour gives a tour.
pub proof fn lemma_reversed_is_tour(t: Seq<usize>, n: nat, lo: int, hi: int)
    requires
        is_tour(t, n),
        0 <= lo,
        hi < n,
    ensures
        is_tour(reversed_between(t, lo, hi), n),
{
    let s = reversed_between(t, lo, hi);
    let at = |k: int| if lo <= k <= hi { lo + hi - k } else { k };
    assert forall|k: int| 0 <= k < n implies #[trigger] s[k] == t[at(k)] && 0 <= at(k) < n by {}
    assert forall|x: int, y: int| 0 <= x < y < s.len() implies s[x] != s[y] by {
        assert(s[x] == t[at(x)] && s[y] == t[at(y)]);
        if at(x) < at(y) {
            assert(t[at(x)] != t[at(y)]);
        } else {
            assert(t[at(y)] != t[at(x)]);
        }
    }
}

} // verus!
