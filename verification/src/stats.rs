//! What the table of local optima tells about the landscape: how far each
//! optimum is from the best one, how much longer it is, and how the two
//! go together.

use vstd::prelude::*;
use crate::collections::OptimumRow;
use crate::helpers::cmp_permutations;
use crate::model::is_tour;
use crate::optima::is_sorted_by_length;
use crate::permutation::{cayley_distance, lemma_distance_bounds};
use crate::summation::{lemma_sum_bounds, sum_over};

verus! {

/// Why no statistics can be had.
#[derive(Debug, Clone, Copy, PartialEq, Eq, Structural)]
pub enum StatsError {
    /// Fewer than two local optima were found.
    InsufficientSample,
}

/// The integer statistics of the two series, each mean rounded down.
#[derive(Debug, PartialEq, Eq)]
pub struct Summary {
    /// For each local optimum but the best, its distance from the best.
    pub distances: Vec<u64>,
    /// For each local optimum but the best, its length above the best.
    pub height_diff: Vec<u64>,
    /// The mean of the distances.
    pub mean_distance: u64,
    /// The mean of the height differences.
    pub mean_height: u64,
    /// The mean of the products, less the product of the means.
    pub covariance: i128,
    /// The mean of the squared distances, less the square of their mean.
    pub variance_distance: i128,
    /// The mean of the squared height differences, less the square of
    /// their mean.
    pub variance_height: i128,
}

/// The products of the entries of two series, as a function of the
/// position.
pub open spec fn products_of(xs: Seq<u64>, ys: Seq<u64>) -> spec_fn(int) -> int {
    |i: int| xs[i] * ys[i]
}

/// The entries of a series, as a function of the position.
pub open spec fn values_of(xs: Seq<u64>) -> spec_fn(int) -> int {
    |i: int| xs[i] as int
}

/// The mean of a series, rounded down.
pub open spec fn mean_of(xs: Seq<u64>) -> int {
    sum_over(values_of(xs), 0, xs.len() as int) / (xs.len() as int)
}

/// The mean of the products of two series, rounded down.
pub open spec fn mean_product_of(xs: Seq<u64>, ys: Seq<u64>) -> int {
    sum_over(products_of(xs, ys), 0, xs.len() as int) / (xs.len() as int)
}

/// The covariance of two series: the mean of the products less the
/// product of the means, each mean rounded down.
pub open spec fn covariance_of(xs: Seq<u64>, ys: Seq<u64>) -> int {
    mean_product_of(xs, ys) - mean_of(xs) * mean_of(ys)
}

/// The distances of the rows from the first: from the second row on.
pub open spec fn distances_from_first(rows: Seq<OptimumRow>) -> Seq<u64> {
    Seq::new(
        (rows.len() - 1) as nat,
        |i: int| cayley_distance(rows[0].0@, rows[i + 1].0@) as u64,
    )
}

/// The lengths of the rows above that of the first: from the second row
/// on.
pub open spec fn heights_above_first(rows: Seq<OptimumRow>) -> Seq<u64> {
    Seq::new((rows.len() - 1) as nat, |i: int| (rows[i + 1].1 - rows[0].1) as u64)
}

/// Every entry of the series fits in 32 bits.
pub open spec fn fits_32_bits(xs: Seq<u64>) -> bool {
    forall|i: int| 0 <= i < xs.len() ==> #[trigger] xs[i] <= u32::MAX
}

/// The mean of a series, rounded down.
pub fn mean(xs: &Vec<u64>) -> (r: u64)
    requires
        xs.len() > 0,
    ensures
        r == mean_of(xs@),
        fits_32_bits(xs@) ==> r <= u32::MAX,
{
    let n: usize = xs.len();
    let ghost f = values_of(xs@);
    let mut total: u128 = 0;
    let mut i: usize = 0;
    while i < n
        invariant
            i <= n,
            n == xs.len(),
            f == values_of(xs@),
            total == sum_over(f, 0, i as int),
            total <= i * u64::MAX,
        decreases n - i,
    {
        assert(f(i as int) == xs[i as int]);
        assert((i + 1) * u64::MAX <= u128::MAX) by (nonlinear_arith)
            requires
                i + 1 <= u64::MAX,
        ;
        assert(i * u64::MAX + u64::MAX == (i + 1) * u64::MAX) by (nonlinear_arith);
        total = total + xs[i] as u128;
        i += 1;
    }
    let r: u128 = total / (n as u128);
    assert(r <= u64::MAX) by (nonlinear_arith)
        requires
            r == total as int / n as int,
            n > 0,
            total <= n * u64::MAX,
    ;
    proof {
        if fits_32_bits(xs@) {
            assert forall|k: int| 0 <= k < n implies 0 <= #[trigger] f(k) <= u32::MAX by {
                assert(xs@[k] <= u32::MAX);
            }
            lemma_sum_bounds(f, 0, n as int, 0, u32::MAX as int);
            assert(r <= u32::MAX) by (nonlinear_arith)
                requires
                    r == total as int / n as int,
                    n > 0,
                    total <= (n - 0) * u32::MAX,
            ;
        }
    }
    r as u64
}

/// The mean of the products of two series whose entries fit in 32 bits,
/// rounded down.
pub fn mean_product(xs: &Vec<u64>, ys: &Vec<u64>) -> (r: u64)
    requires
        xs.len() > 0,
        xs.len() == ys.len(),
        fits_32_bits(xs@),
        fits_32_bits(ys@),
    ensures
        r == mean_product_of(xs@, ys@),
{
    let n: usize = xs.len();
    let ghost f = products_of(xs@, ys@);
    let mut total: u128 = 0;
    let mut i: usize = 0;
    while i < n
        invariant
            i <= n,
            n == xs.len(),
            n == ys.len(),
            fits_32_bits(xs@),
            fits_32_bits(ys@),
            f == products_of(xs@, ys@),
            total == sum_over(f, 0, i as int),
            total <= i * u64::MAX,
        decreases n - i,
    {
        let x: u64 = xs[i];
        let y: u64 = ys[i];
        assert(f(i as int) == x * y);
        assert(x * y <= u64::MAX) by (nonlinear_arith)
            requires
                x <= u32::MAX,
                y <= u32::MAX,
        ;
        assert((i + 1) * u64::MAX <= u128::MAX) by (nonlinear_arith)
            requires
                i + 1 <= u64::MAX,
        ;
        assert(i * u64::MAX + u64::MAX == (i + 1) * u64::MAX) by (nonlinear_arith);
        total = total + (x * y) as u128;
        i += 1;
    }
    let r: u128 = total / (n as u128);
    assert(r <= u64::MAX) by (nonlinear_arith)
        requires
            r == total as int / n as int,
            n > 0,
            total <= n * u64::MAX,
    ;
    r as u64
}

/// The covariance of two series whose entries fit in 32 bits: the mean of
/// the products less the product of the means.
pub fn covariance(xs: &Vec<u64>, ys: &Vec<u64>) -> (r: i128)
    requires
        xs.len() > 0,
        xs.len() == ys.len(),
        fits_32_bits(xs@),
        fits_32_bits(ys@),
    ensures
        r == covariance_of(xs@, ys@),
{
    let ep: u64 = mean_product(xs, ys);
    let ex: u64 = mean(xs);
    let ey: u64 = mean(ys);
    assert(ex * ey <= u32::MAX * u32::MAX) by (nonlinear_arith)
        requires
            ex <= u32::MAX,
            ey <= u32::MAX,
    ;
    ep as i128 - (ex as i128) * (ey as i128)
}

/// Every row holds a tour of as many nodes as the first row's, and these
/// are few enough for a distance to fit in 32 bits.
pub open spec fn share_nodes(rows: Seq<OptimumRow>) -> bool {
    &&& rows[0].0@.len() <= u32::MAX
    &&& forall|i: int| 0 <= i < rows.len() ==> is_tour((#[trigger] rows[i]).0@, rows[0].0@.len())
}

/// For each row but the first, the distance of its tour from the tour of
/// the first row.
pub fn distances_to_best(local_minimums: &Vec<OptimumRow>) -> (distances: Vec<u64>)
    requires
        local_minimums.len() > 0,
        share_nodes(local_minimums@),
    ensures
        distances@ == distances_from_first(local_minimums@),
        fits_32_bits(distances@),
{
    let mut distances: Vec<u64> = Vec::new();
    let mut i: usize = 1;
    while i < local_minimums.len()
        invariant
            1 <= i <= local_minimums.len(),
            share_nodes(local_minimums@),
            distances.len() == i - 1,
            forall|k: int|
                0 <= k < distances.len() ==> distances[k] == distances_from_first(
                    local_minimums@,
                )[k],
            fits_32_bits(distances@),
        decreases local_minimums.len() - i,
    {
        let best: &[usize] = local_minimums[0].0.as_slice();
        let other: &[usize] = local_minimums[i].0.as_slice();
        proof {
            lemma_distance_bounds(best@, other@, best@.len());
        }
        let d: u32 = cmp_permutations(best, other);
        distances.push(u64::from(d));
        i += 1;
    }
    assert(distances@ =~= distances_from_first(local_minimums@));
    distances
}

/// For each row but the first, the length of its tour above the length of
/// the tour of the first row.
pub fn heights_above_best(local_minimums: &Vec<OptimumRow>) -> (height_diff: Vec<u64>)
    requires
        local_minimums.len() > 0,
        is_sorted_by_length(local_minimums@),
    ensures
        height_diff@ == heights_above_first(local_minimums@),
        fits_32_bits(height_diff@),
{
    let mut height_diff: Vec<u64> = Vec::new();
    let best: i32 = local_minimums[0].1;
    let mut i: usize = 1;
    while i < local_minimums.len()
        invariant
            1 <= i <= local_minimums.len(),
            is_sorted_by_length(local_minimums@),
            best == local_minimums[0].1,
            height_diff.len() == i - 1,
            forall|k: int|
                0 <= k < height_diff.len() ==> height_diff[k] == heights_above_first(
                    local_minimums@,
                )[k],
            fits_32_bits(height_diff@),
        decreases local_minimums.len() - i,
    {
        assert(local_minimums@[0].1 <= local_minimums@[i as int].1);
        let above: i64 = local_minimums[i].1 as i64 - best as i64;
        height_diff.push(above as u64);
        i += 1;
    }
    assert(height_diff@ =~= heights_above_first(local_minimums@));
    height_diff
}

/// The statistics of a table of local optima, sorted by length: for each
/// optimum but the best its distance from the best and its length above
/// the best, the means of the two series, their covariance and their
/// variances.
///
/// With fewer than two local optima there is nothing to compare.
pub fn calculate_stats(local_minimums: &Vec<OptimumRow>) -> (r: Result<Summary, StatsError>)
    requires
        is_sorted_by_length(local_minimums@),
        local_minimums.len() > 0 ==> share_nodes(local_minimums@),
    ensures
        r is Err <==> local_minimums.len() < 2,
        r is Ok ==> {
            let summary = r->Ok_0;
            let distances = distances_from_first(local_minimums@);
            let heights = heights_above_first(local_minimums@);
            &&& summary.distances@ == distances
            &&& summary.height_diff@ == heights
            &&& summary.mean_distance == mean_of(distances)
            &&& summary.mean_height == mean_of(heights)
            &&& summary.covariance == covariance_of(distances, heights)
            &&& summary.variance_distance == covariance_of(distances, distances)
            &&& summary.variance_height == covariance_of(heights, heights)
        },
{
    if local_minimums.len() < 2 {
        return Err(StatsError::InsufficientSample);
    }
    //calculate distances from node to best node and height differences between them
    let distances: Vec<u64> = distances_to_best(local_minimums);
    let height_diff: Vec<u64> = heights_above_best(local_minimums);

    //expected values
    let ed: u64 = mean(&distances);
    let eh: u64 = mean(&height_diff);
    //calculate covariance
    let cov: i128 = covariance(&distances, &height_diff);
    let var_d: i128 = covariance(&distances, &distances);
    let var_h: i128 = covariance(&height_diff, &height_diff);

    Ok(
        Summary {
            distances,
            height_diff,
            mean_distance: ed,
            mean_height: eh,
            covariance: cov,
            variance_distance: var_d,
            variance_height: var_h,
        },
    )
}

/// `top` is the greatest entry of the series.
pub open spec fn is_greatest(xs: Seq<u64>, top: int) -> bool {
    &&& exists|i: int| 0 <= i < xs.len() && #[trigger] xs[i] == top
    &&& forall|i: int| 0 <= i < xs.len() ==> #[trigger] xs[i] <= top
}

/// `low` is the least entry of the series.
pub open spec fn is_least(xs: Seq<u64>, low: int) -> bool {
    &&& exists|i: int| 0 <= i < xs.len() && #[trigger] xs[i] == low
    &&& forall|i: int| 0 <= i < xs.len() ==> low <= #[trigger] xs[i]
}

/// The ranges of a plot of the height differences over the distances.
/// The distances run from 2 below the least, or from the least where that
/// is below 2, to 2 above the greatest. The heights run from 0 to 100
/// above the last one.
pub fn plot_ranges(distances: &Vec<u64>, height_diff: &Vec<u64>) -> (r: ((u64, u64), (u64, u64)))
    requires
        distances.len() > 0,
        height_diff.len() > 0,
        forall|i: int| 0 <= i < distances.len() ==> #[trigger] distances[i] + 2 <= u64::MAX,
        height_diff[height_diff.len() - 1] + 100 <= u64::MAX,
    ensures
        is_greatest(distances@, (r.0).1 - 2),
        exists|low: int|
            is_least(distances@, low) && (r.0).0 == if low >= 2 {
                low - 2
            } else {
                low
            },
        (r.1).0 == 0,
        (r.1).1 == height_diff[height_diff.len() - 1] + 100,
{
    let max_height: u64 = height_diff[height_diff.len() - 1] + 100;
    let mut greatest: u64 = distances[0];
    let mut least: u64 = distances[0];
    let mut i: usize = 1;
    assert(distances@.take(1)[0] == distances@[0]);
    while i < distances.len()
        invariant
            1 <= i <= distances.len(),
            is_greatest(distances@.take(i as int), greatest as int),
            is_least(distances@.take(i as int), least as int),
        decreases distances.len() - i,
    {
        let d: u64 = distances[i];
        let ghost seen = distances@.take(i as int);
        let ghost more = distances@.take(i + 1);
        proof {
            let g = choose|k: int| 0 <= k < seen.len() && #[trigger] seen[k] == greatest;
            let l = choose|k: int| 0 <= k < seen.len() && #[trigger] seen[k] == least;
            assert(more[g] == greatest);
            assert(more[l] == least);
            assert(more[i as int] == d);
            assert forall|k: int| 0 <= k < more.len() implies #[trigger] more[k] <= (if d
                > greatest {
                d
            } else {
                greatest
            }) by {
                if k < i {
                    assert(seen[k] <= greatest);
                }
            }
            assert forall|k: int| 0 <= k < more.len() implies (if d < least {
                d
            } else {
                least
            }) <= #[trigger] more[k] by {
                if k < i {
                    assert(least <= seen[k]);
                }
            }
        }
        if d > greatest {
            greatest = d;
        }
        if d < least {
            least = d;
        }
        i += 1;
    }
    assert(distances@.take(i as int) =~= distances@);
    proof {
        let at = choose|k: int| 0 <= k < distances.len() && #[trigger] distances@[k] == greatest;
        assert(distances[at] + 2 <= u64::MAX);
    }
    let max_dist: u64 = greatest + 2;
    let mut min_dist: u64 = least;

    if min_dist >= 2 {
        min_dist -= 2;
    }
    assert(is_least(distances@, least as int));
    ((min_dist, max_dist), (0, max_height))
}

} // verus!
