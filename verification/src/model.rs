//! The mathematical model: distance matrices, tours, and the length of a
//! closed tour.
//!
//! A matrix is a sequence of rows of `i32` costs, the deep view of a
//! `Vec<Vec<i32>>`. A tour is a sequence of node indices, the view of a
//! `Vec<usize>`.

use vstd::prelude::*;
use crate::summation::{lemma_sum_bounds, lemma_sum_prefix_le, sum_over};

verus! {

/// Every row is as long as the matrix has rows.
pub open spec fn is_square(m: Seq<Seq<i32>>) -> bool {
    forall|i: int| 0 <= i < m.len() ==> (#[trigger] m[i]).len() == m.len()
}

/// No entry is negative.
pub open spec fn is_nonnegative(m: Seq<Seq<i32>>) -> bool {
    forall|i: int, j: int|
        0 <= i < m.len() && 0 <= j < m[i].len() ==> 0 <= #[trigger] m[i][j]
}

/// A distance matrix: square, with non-negative costs.
pub open spec fn is_distance_matrix(m: Seq<Seq<i32>>) -> bool {
    is_square(m) && is_nonnegative(m)
}

/// The cost from `i` to `j` equals the cost from `j` to `i`.
pub open spec fn is_symmetric(m: Seq<Seq<i32>>) -> bool {
    forall|i: int, j: int|
        0 <= i < m.len() && 0 <= j < m.len() ==> #[trigger] m[i][j] == m[j][i]
}

/// Every entry of `t` is a node index below `n`.
pub open spec fn visits_nodes(t: Seq<usize>, n: nat) -> bool {
    forall|k: int| 0 <= k < t.len() ==> #[trigger] t[k] < n
}

/// No node occurs at two positions of `t`.
pub open spec fn is_duplicate_free(t: Seq<usize>) -> bool {
    forall|i: int, j: int| 0 <= i < j < t.len() ==> t[i] != t[j]
}

/// A tour of `n` nodes: a permutation of `0..n`.
pub open spec fn is_tour(t: Seq<usize>, n: nat) -> bool {
    &&& t.len() == n
    &&& visits_nodes(t, n)
    &&& is_duplicate_free(t)
}

/// The cost of the edge that leaves position `k` of the tour: to position
/// `k + 1`, or from the last position back to the first.
pub open spec fn edge_cost(t: Seq<usize>, m: Seq<Seq<i32>>, k: int) -> int {
    m[t[k] as int][t[(k + 1) % (t.len() as int)] as int] as int
}

/// The edge costs of a tour as a function of the position.
pub open spec fn edge_costs(t: Seq<usize>, m: Seq<Seq<i32>>) -> spec_fn(int) -> int {
    |k: int| edge_cost(t, m, k)
}

/// The length of the closed tour `t`: the sum of the costs of its edges,
/// the closing edge from the last node back to the first included.
pub open spec fn tour_length(t: Seq<usize>, m: Seq<Seq<i32>>) -> int {
    sum_over(edge_costs(t, m), 0, t.len() as int)
}

/// The tour with the entries at positions `i` and `j` exchanged.
pub open spec fn swapped(t: Seq<usize>, i: int, j: int) -> Seq<usize> {
    t.update(i, t[j]).update(j, t[i])
}

/// The tour with the stretch of positions `lo..=hi` in reverse order.
pub open spec fn reversed_between(t: Seq<usize>, lo: int, hi: int) -> Seq<usize> {
    Seq::new(t.len(), |k: int| if lo <= k <= hi { t[lo + hi - k] } else { t[k] })
}

/// The tour started `r` positions later: a cyclic shift.
pub open spec fn rotated(t: Seq<usize>, r: int) -> Seq<usize> {
    Seq::new(t.len(), |k: int| t[(k + r) % (t.len() as int)])
}

/// The pair `(x, y)` comes before `(i, j)` when pairs of positions are
/// scanned row by row.
pub open spec fn scanned_before(x: int, y: int, i: int, j: int) -> bool {
    x < i || (x == i && y < j)
}

/// The first position that a search may change: 1 when the first node is
/// kept in place, else 0.
pub open spec fn first_free(preserve_first: bool) -> int {
    if preserve_first { 1 } else { 0 }
}

/// Every edge of a tour over a non-negative square matrix costs between 0
/// and `i32::MAX`.
pub proof fn lemma_edge_cost_bounds(t: Seq<usize>, m: Seq<Seq<i32>>, k: int)
    requires
        is_distance_matrix(m),
        visits_nodes(t, m.len()),
        0 <= k < t.len(),
    ensures
        0 <= edge_cost(t, m, k) <= i32::MAX,
{
    let n = t.len() as int;
    let next = (k + 1) % n;
    assert(0 <= next < n);
    assert(t[k] < m.len());
    assert(t[next] < m.len());
    assert(m[t[k] as int].len() == m.len());
}

/// The length of a tour over a distance matrix is non-negative, and so is
/// the cost of every initial stretch of it, which is no more than the whole.
pub proof fn lemma_tour_length_prefix(t: Seq<usize>, m: Seq<Seq<i32>>, k: int)
    requires
        is_distance_matrix(m),
        visits_nodes(t, m.len()),
        0 <= k <= t.len(),
    ensures
        0 <= sum_over(edge_costs(t, m), 0, k) <= tour_length(t, m),
        tour_length(t, m) <= t.len() * i32::MAX,
{
    let f = edge_costs(t, m);
    assert forall|i: int| 0 <= i < t.len() implies 0 <= #[trigger] f(i) <= i32::MAX by {
        lemma_edge_cost_bounds(t, m, i);
    }
    lemma_sum_prefix_le(f, 0, k, t.len() as int);
    lemma_sum_bounds(f, 0, t.len() as int, 0, i32::MAX as int);
}

/// The length of every tour of the matrix fits in an `i32`.
pub open spec fn every_tour_fits(m: Seq<Seq<i32>>) -> bool {
    forall|t: Seq<usize>| is_tour(t, m.len()) ==> #[trigger] tour_length(t, m) <= i32::MAX
}

/// Every cost, taken once for each node, stays within an `i32`.
pub open spec fn costs_are_small(m: Seq<Seq<i32>>) -> bool {
    forall|i: int, j: int|
        0 <= i < m.len() && 0 <= j < m[i].len() ==> #[trigger] m[i][j] * m.len() <= i32::MAX
}

/// Over a distance matrix with small costs, the length of every tour fits
/// in an `i32`.
pub proof fn lemma_small_costs_fit(m: Seq<Seq<i32>>)
    requires
        is_distance_matrix(m),
        costs_are_small(m),
    ensures
        every_tour_fits(m),
{
    assert forall|t: Seq<usize>| is_tour(t, m.len()) implies #[trigger] tour_length(t, m)
        <= i32::MAX by {
        let n = m.len() as int;
        if n > 0 {
            let f = edge_costs(t, m);
            // The greatest cost that any edge of the tour has.
            let top = i32::MAX as int / n;
            assert forall|k: int| 0 <= k < n implies 0 <= #[trigger] f(k) <= top by {
                lemma_edge_cost_bounds(t, m, k);
                let next = (k + 1) % n;
                assert(t[k] < n && t[next] < n);
                let cost = m[t[k] as int][t[next] as int];
                assert(m[t[k] as int].len() == n);
                assert(cost * m.len() <= i32::MAX);
                assert(cost <= top) by (nonlinear_arith)
                    requires
                        cost * n <= i32::MAX,
                        n > 0,
                        top == i32::MAX as int / n,
                ;
            }
            lemma_sum_bounds(f, 0, n, 0, top);
            assert(n * top <= i32::MAX) by (nonlinear_arith)
                requires
                    n > 0,
                    top == i32::MAX as int / n,
            ;
        }
    }
}

} // verus!
