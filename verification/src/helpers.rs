//! Tours and distance matrices as executable values: validation, tour
//! length, random tours and the distance between two permutations.

use vstd::prelude::*;
use crate::model::{
    costs_are_small, edge_cost, edge_costs, is_distance_matrix, is_duplicate_free, is_square,
    is_symmetric, is_tour, lemma_edge_cost_bounds, lemma_tour_length_prefix, tour_length,
    visits_nodes,
};
use crate::permutation::{
    cayley_distance, lemma_distance_bounds, lemma_relabeling_is_tour, relabel, resolve_cycles,
};
use crate::rearrange::lemma_wrap_once;
use crate::rng::{index_draw, sample_below, seeded_draw, Generator};
use crate::summation::sum_over;

verus! {

/// Why a matrix is not a distance matrix.
#[derive(Debug, Clone, Copy, PartialEq, Eq, Structural)]
pub enum MatrixError {
    /// Some row is not as long as the matrix has rows.
    NotSquare,
    /// Some cost is negative.
    NegativeCost,
}

/// Why a file could not be read as a problem or as a tour.
#[derive(Debug, Clone, Copy, PartialEq, Eq, Structural)]
pub enum ParsingError {
    /// The header names no dimension.
    DimensionNotProvided,
    /// The weights come in a format, or by a metric, that is not known.
    UnsupportedWeightFormat,
    /// A word that should be a number is none, or one out of range.
    InvalidNumber,
    /// A line of the header has no colon.
    MalformedHeader,
    /// The file ends before its data does, or a line holds too few or too
    /// many values.
    MalformedData,
}

impl ParsingError {
    /// What the error says.
    pub open spec fn text(self) -> Seq<char> {
        match self {
            ParsingError::DimensionNotProvided => "Parsing Error: no Dimension field"@,
            ParsingError::UnsupportedWeightFormat => {
                "Parsing Error: unsupported weight type or distance metric"@
            },
            ParsingError::InvalidNumber => "Parsing Error: invalid number"@,
            ParsingError::MalformedHeader => "Parsing Error: header line without a colon"@,
            ParsingError::MalformedData => "Parsing Error: data missing or out of place"@,
        }
    }

    /// What the error says.
    pub fn message(&self) -> (text: String)
        ensures
            text@ == self.text(),
    {
        broadcast use vstd::string::to_string_from_display_ensures_for_str;

        match self {
            ParsingError::DimensionNotProvided => "Parsing Error: no Dimension field".to_string(),
            ParsingError::UnsupportedWeightFormat => {
                "Parsing Error: unsupported weight type or distance metric".to_string()
            },
            ParsingError::InvalidNumber => "Parsing Error: invalid number".to_string(),
            ParsingError::MalformedHeader => {
                "Parsing Error: header line without a colon".to_string()
            },
            ParsingError::MalformedData => {
                "Parsing Error: data missing or out of place".to_string()
            },
        }
    }
}

/// Checks that `distance_matrix` is square and holds no negative cost.
///
/// A matrix that is not square is reported as such, whatever its entries.
pub fn check_distance_matrix(distance_matrix: &Vec<Vec<i32>>) -> (r: Result<(), MatrixError>)
    ensures
        r is Ok <==> is_distance_matrix(distance_matrix.deep_view()),
        r == Err::<(), MatrixError>(MatrixError::NotSquare) <==> !is_square(
            distance_matrix.deep_view(),
        ),
{
    let n: usize = distance_matrix.len();
    let ghost m = distance_matrix.deep_view();
    let mut i: usize = 0;
    while i < n
        invariant
            i <= n,
            n == distance_matrix.len(),
            m == distance_matrix.deep_view(),
            forall|r: int| 0 <= r < i ==> (#[trigger] m[r]).len() == n,
        decreases n - i,
    {
        if distance_matrix[i].len() != n {
            assert(m[i as int].len() != m.len());
            return Err(MatrixError::NotSquare);
        }
        i += 1;
    }
    assert(is_square(m));
    let mut i: usize = 0;
    while i < n
        invariant
            i <= n,
            n == distance_matrix.len(),
            m == distance_matrix.deep_view(),
            is_square(m),
            forall|r: int, c: int| 0 <= r < i && 0 <= c < m[r].len() ==> 0 <= #[trigger] m[r][c],
        decreases n - i,
    {
        let row = &distance_matrix[i];
        assert(row.len() == n) by {
            assert(m[i as int].len() == n);
        }
        let mut j: usize = 0;
        while j < n
            invariant
                i < n,
                j <= n,
                n == distance_matrix.len(),
                row.len() == n,
                *row == distance_matrix[i as int],
                m == distance_matrix.deep_view(),
                is_square(m),
                forall|r: int, c: int|
                    0 <= r < i && 0 <= c < m[r].len() ==> 0 <= #[trigger] m[r][c],
                forall|c: int| 0 <= c < j ==> 0 <= #[trigger] m[i as int][c],
            decreases n - j,
        {
            if row[j] < 0 {
                assert(m[i as int][j as int] < 0);
                return Err(MatrixError::NegativeCost);
            }
            assert(m[i as int][j as int] == row[j as int]);
            j += 1;
        }
        i += 1;
    }
    Ok(())
}

/// Tells whether the cost from each node to each other is the cost back.
pub fn costs_mirror(distance_matrix: &Vec<Vec<i32>>) -> (b: bool)
    requires
        is_square(distance_matrix.deep_view()),
    ensures
        b == is_symmetric(distance_matrix.deep_view()),
{
    let n: usize = distance_matrix.len();
    let ghost m = distance_matrix.deep_view();
    assert forall|r: int, c: int| 0 <= r < n && 0 <= c < n implies #[trigger] m[r][c]
        == distance_matrix[r][c] by {
        assert(m[r].len() == n);
    }
    let mut i: usize = 0;
    while i < n
        invariant
            i <= n,
            n == distance_matrix.len(),
            m == distance_matrix.deep_view(),
            is_square(m),
            forall|r: int, c: int| 0 <= r < i && 0 <= c < n ==> #[trigger] m[r][c] == m[c][r],
        decreases n - i,
    {
        let mut j: usize = 0;
        while j < n
            invariant
                i < n,
                j <= n,
                n == distance_matrix.len(),
                m == distance_matrix.deep_view(),
                is_square(m),
                forall|r: int, c: int| 0 <= r < i && 0 <= c < n ==> #[trigger] m[r][c] == m[c][r],
                forall|c: int| 0 <= c < j ==> #[trigger] m[i as int][c] == m[c][i as int],
            decreases n - j,
        {
            assert(m[i as int].len() == n);
            assert(m[j as int].len() == n);
            if distance_matrix[i][j] != distance_matrix[j][i] {
                assert(m[i as int][j as int] != m[j as int][i as int]);
                return false;
            }
            j += 1;
        }
        i += 1;
    }
    true
}

/// Tells whether every cost of the matrix, taken once for each node, stays
/// within an `i32`. The length of every tour of a distance matrix then
/// fits in an `i32`.
pub fn costs_fit(distance_matrix: &Vec<Vec<i32>>) -> (b: bool)
    ensures
        b == costs_are_small(distance_matrix.deep_view()),
{
    let n: usize = distance_matrix.len();
    let ghost m = distance_matrix.deep_view();
    let mut i: usize = 0;
    while i < n
        invariant
            i <= n,
            n == distance_matrix.len(),
            m == distance_matrix.deep_view(),
            forall|r: int, c: int|
                0 <= r < i && 0 <= c < m[r].len() ==> #[trigger] m[r][c] * n <= i32::MAX,
        decreases n - i,
    {
        let row = &distance_matrix[i];
        let mut j: usize = 0;
        while j < row.len()
            invariant
                i < n,
                j <= row.len(),
                n == distance_matrix.len(),
                *row == distance_matrix[i as int],
                m == distance_matrix.deep_view(),
                forall|r: int, c: int|
                    0 <= r < i && 0 <= c < m[r].len() ==> #[trigger] m[r][c] * n <= i32::MAX,
                forall|c: int| 0 <= c < j ==> #[trigger] m[i as int][c] * n <= i32::MAX,
            decreases row.len() - j,
        {
            assert(m[i as int][j as int] == row[j as int]);
            assert(-0x8000_0000 * 0x1_0000_0000_0000_0000 <= row[j as int] * n
                <= 0x8000_0000 * 0x1_0000_0000_0000_0000) by (nonlinear_arith)
                requires
                    -0x8000_0000 <= row[j as int] <= 0x8000_0000,
                    0 <= n <= 0x1_0000_0000_0000_0000,
            ;
            if row[j] as i128 * n as i128 > i32::MAX as i128 {
                return false;
            }
            j += 1;
        }
        assert(m[i as int].len() == row.len());
        i += 1;
    }
    true
}

/// Tells whether `path` is a tour of `node_count` nodes: whether it holds
/// each of `0..node_count` exactly once.
pub fn is_valid_tour(path: &Vec<usize>, node_count: usize) -> (b: bool)
    ensures
        b == is_tour(path@, node_count as nat),
{
    if path.len() != node_count {
        return false;
    }
    let mut seen: Vec<bool> = Vec::new();
    let mut i: usize = 0;
    while i < node_count
        invariant
            i <= node_count,
            seen.len() == i,
            forall|k: int| 0 <= k < i ==> !#[trigger] seen[k],
        decreases node_count - i,
    {
        seen.push(false);
        i += 1;
    }
    let mut k: usize = 0;
    while k < node_count
        invariant
            k <= node_count,
            path.len() == node_count,
            seen.len() == node_count,
            visits_nodes(path@.take(k as int), node_count as nat),
            is_duplicate_free(path@.take(k as int)),
            forall|v: int|
                0 <= v < node_count ==> (#[trigger] seen[v] <==> exists|j: int|
                    0 <= j < k && path[j] == v),
        decreases node_count - k,
    {
        let node: usize = path[k];
        if node >= node_count {
            assert(!visits_nodes(path@, node_count as nat)) by {
                assert(path@[k as int] >= node_count);
            }
            return false;
        }
        if seen[node] {
            proof {
                let j = choose|j: int| 0 <= j < k && path[j] == node;
                assert(path@[j] == path@[k as int]);
            }
            return false;
        }
        seen[node] = true;
        proof {
            let shorter = path@.take(k as int);
            let longer = path@.take(k + 1);
            assert forall|a: int, b: int| 0 <= a < b < longer.len() implies longer[a]
                != longer[b] by {
                if b < k {
                    assert(shorter[a] != shorter[b]);
                }
            }
            assert forall|a: int| 0 <= a < longer.len() implies #[trigger] longer[a]
                < node_count by {
                if a < k {
                    assert(shorter[a] < node_count);
                }
            }
            assert forall|v: int| 0 <= v < node_count implies (#[trigger] seen[v] <==> exists|
                j: int,
            |
                0 <= j < k + 1 && path[j] == v) by {
                if v == node {
                    assert(path[k as int] == v);
                }
            }
        }
        k += 1;
    }
    assert(path@.take(k as int) == path@);
    true
}

/// The length of the closed tour `path`, in 128 bits, which the length of
/// every tour fits.
pub fn tour_len_wide(path: &Vec<usize>, distance_matrix: &Vec<Vec<i32>>) -> (len: i128)
    requires
        path.len() > 0,
        is_distance_matrix(distance_matrix.deep_view()),
        visits_nodes(path@, distance_matrix.len() as nat),
    ensures
        len == tour_length(path@, distance_matrix.deep_view()),
{
    let n: usize = path.len();
    let ghost m = distance_matrix.deep_view();
    let mut len: i128 = 0;
    let mut k: usize = 0;
    while k < n
        invariant
            k <= n,
            n == path.len(),
            n > 0,
            m == distance_matrix.deep_view(),
            is_distance_matrix(m),
            visits_nodes(path@, m.len()),
            len == sum_over(edge_costs(path@, m), 0, k as int),
            0 <= len <= k * i32::MAX,
        decreases n - k,
    {
        let next: usize = if k + 1 < n { k + 1 } else { 0 };
        let from: usize = path[k];
        let to: usize = path[next];
        proof {
            lemma_wrap_once(k + 1, n as int);
            assert(m[from as int].len() == m.len());
            assert(distance_matrix[from as int][to as int] == edge_cost(path@, m, k as int));
            lemma_edge_cost_bounds(path@, m, k as int);
            assert(k * i32::MAX + i32::MAX <= i128::MAX) by (nonlinear_arith)
                requires
                    0 <= k <= 0xffff_ffff_ffff_ffff,
            ;
            assert((k + 1) * i32::MAX == k * i32::MAX + i32::MAX) by (nonlinear_arith);
        }
        len = len + distance_matrix[from][to] as i128;
        k += 1;
    }
    len
}

/// The length of the closed tour `path` where it fits in an `i32`, else
/// `None`.
pub fn checked_tour_len(path: &Vec<usize>, distance_matrix: &Vec<Vec<i32>>) -> (r: Option<i32>)
    requires
        path.len() > 0,
        is_distance_matrix(distance_matrix.deep_view()),
        visits_nodes(path@, distance_matrix.len() as nat),
    ensures
        r is Some <==> tour_length(path@, distance_matrix.deep_view()) <= i32::MAX,
        r is Some ==> r->0 == tour_length(path@, distance_matrix.deep_view()),
{
    let len: i128 = tour_len_wide(path, distance_matrix);
    proof {
        lemma_tour_length_prefix(path@, distance_matrix.deep_view(), 0);
    }
    if len <= i32::MAX as i128 {
        Some(len as i32)
    } else {
        None
    }
}

/// The length of the closed tour `path` over `distance_matrix`: the costs
/// of its consecutive edges and of the edge from its last node back to its
/// first.
pub fn tour_len(path: &Vec<usize>, distance_matrix: &Vec<Vec<i32>>) -> (len: i32)
    requires
        path.len() > 0,
        is_distance_matrix(distance_matrix.deep_view()),
        visits_nodes(path@, distance_matrix.len() as nat),
        tour_length(path@, distance_matrix.deep_view()) <= i32::MAX,
    ensures
        len == tour_length(path@, distance_matrix.deep_view()),
{
    let n: usize = path.len();
    let ghost m = distance_matrix.deep_view();
    let mut len: i32 = 0;
    let mut k: usize = 0;
    while k < n
        invariant
            k <= n,
            n == path.len(),
            n > 0,
            m == distance_matrix.deep_view(),
            is_distance_matrix(m),
            visits_nodes(path@, m.len()),
            tour_length(path@, m) <= i32::MAX,
            len == sum_over(edge_costs(path@, m), 0, k as int),
        decreases n - k,
    {
        let next: usize = if k + 1 < n { k + 1 } else { 0 };
        let from: usize = path[k];
        let to: usize = path[next];
        proof {
            lemma_wrap_once(k + 1, n as int);
            assert(m[from as int].len() == m.len());
            assert(distance_matrix[from as int][to as int] == edge_cost(path@, m, k as int));
            lemma_tour_length_prefix(path@, m, k + 1);
            lemma_edge_cost_bounds(path@, m, k as int);
        }
        len = len + distance_matrix[from][to];
        k += 1;
    }
    len
}

/// The distance between two permutations of the same nodes: the least
/// number of exchanges of two entries that turn `perm1` into `perm2`.
///
/// The permutation that turns one into the other is built, and its cycles
/// are resolved one exchange at a time, each of which puts one node in its
/// place; the exchanges are counted.
pub fn cmp_permutations(perm1: &[usize], perm2: &[usize]) -> (count: u32)
    requires
        is_tour(perm1@, perm1@.len()),
        is_tour(perm2@, perm1@.len()),
        perm1@.len() <= u32::MAX,
    ensures
        count == cayley_distance(perm1@, perm2@),
        count <= perm1@.len(),
        perm1@.len() > 0 ==> count < perm1@.len(),
{
    let p: Vec<usize> = relabel(perm1, perm2);
    proof {
        lemma_relabeling_is_tour(perm1@, perm2@, perm1@.len());
        lemma_distance_bounds(perm1@, perm2@, perm1@.len());
    }
    resolve_cycles(p)
}

/// The nodes that a random tour draws from, in rising order: all of them,
/// or all but node 0 where that one is put first.
pub open spec fn free_nodes(node_count: nat, preserve_first: bool) -> Seq<usize> {
    if preserve_first && node_count > 0 {
        Seq::new((node_count - 1) as nat, |i: int| (i + 1) as usize)
    } else {
        Seq::new(node_count, |i: int| i as usize)
    }
}

/// `draws` can steer the drawing from `count` nodes: there is one draw
/// for each node, and each is a position among the nodes that are left.
pub open spec fn are_draws(draws: Seq<usize>, count: nat) -> bool {
    &&& draws.len() == count
    &&& forall|k: int| 0 <= k < count ==> #[trigger] draws[k] < count - k
}

/// The nodes in the order in which `draws` takes them out of `remaining`:
/// each draw names the position of the node that is taken next.
pub open spec fn drawn_order(remaining: Seq<usize>, draws: Seq<usize>) -> Seq<usize>
    decreases draws.len(),
{
    if draws.len() == 0 {
        Seq::empty()
    } else {
        seq![remaining[draws[0] as int]] + drawn_order(
            remaining.remove(draws[0] as int),
            draws.drop_first(),
        )
    }
}

/// The tour of `node_count` nodes that `draws` gives: node 0 first where
/// `preserve_first` asks for it, then the free nodes as they are drawn.
pub open spec fn drawn_tour(node_count: nat, draws: Seq<usize>, preserve_first: bool) -> Seq<
    usize,
> {
    if preserve_first && node_count > 0 {
        seq![0usize] + drawn_order(free_nodes(node_count, preserve_first), draws)
    } else {
        drawn_order(free_nodes(node_count, preserve_first), draws)
    }
}

/// The tour that `draws` gives: the nodes are taken one by one out of the
/// list of those that are left, each at the position that the next draw
/// names. With `preserve_first`, node 0 is put first and not drawn.
pub fn tour_from_draws(node_count: usize, draws: &Vec<usize>, preserve_first: bool) -> (path: Vec<
    usize,
>)
    requires
        are_draws(draws@, free_nodes(node_count as nat, preserve_first).len()),
    ensures
        path@ == drawn_tour(node_count as nat, draws@, preserve_first),
        is_tour(path@, node_count as nat),
        preserve_first && node_count > 0 ==> path@[0] == 0,
{
    let mut nodes_remaining: Vec<usize> = Vec::new();
    let mut starting_path: Vec<usize> = Vec::new();
    let first: usize = if preserve_first && node_count > 0 { 1 } else { 0 };
    if first == 1 {
        starting_path.push(0);
    }
    let mut node: usize = first;
    while node < node_count
        invariant
            first <= node <= node_count,
            nodes_remaining.len() == node - first,
            forall|i: int| 0 <= i < node - first ==> nodes_remaining[i] == i + first,
        decreases node_count - node,
    {
        nodes_remaining.push(node);
        node += 1;
    }
    assert(nodes_remaining@ =~= free_nodes(node_count as nat, preserve_first));
    let ghost all = nodes_remaining@;
    let ghost head = starting_path@;
    assert(draws@.skip(0) =~= draws@);

    let mut k: usize = 0;
    while k < draws.len()
        invariant
            k <= draws.len(),
            draws.len() == all.len(),
            are_draws(draws@, all.len()),
            nodes_remaining.len() == draws.len() - k,
            starting_path.len() == first + k,
            first + all.len() == node_count,
            first <= 1,
            first == 1 ==> starting_path@[0] == 0,
            starting_path@ + drawn_order(nodes_remaining@, draws@.skip(k as int)) == head
                + drawn_order(all, draws@),
            forall|i: int|
                0 <= i < starting_path.len() ==> #[trigger] starting_path[i] < node_count,
            forall|i: int|
                0 <= i < nodes_remaining.len() ==> first <= #[trigger] nodes_remaining[i]
                    < node_count,
            forall|i: int, j: int|
                0 <= i < j < starting_path.len() ==> starting_path[i] != starting_path[j],
            forall|i: int, j: int|
                0 <= i < j < nodes_remaining.len() ==> nodes_remaining[i] != nodes_remaining[j],
            forall|i: int, j: int|
                0 <= i < starting_path.len() && 0 <= j < nodes_remaining.len()
                    ==> starting_path[i] != nodes_remaining[j],
        decreases draws.len() - k,
    {
        let i: usize = draws[k];
        let ghost path_before = starting_path@;
        let ghost left_before = nodes_remaining@;
        let ghost rest = draws@.skip(k as int);
        proof {
            assert(draws@[k as int] < all.len() - k);
            assert(rest.len() > 0);
            assert(rest[0] == i);
            assert(rest.drop_first() =~= draws@.skip(k + 1));
        }
        starting_path.push(nodes_remaining[i]);
        nodes_remaining.remove(i);
        proof {
            assert(starting_path@ + drawn_order(nodes_remaining@, draws@.skip(k + 1))
                =~= path_before + drawn_order(left_before, rest));
            assert forall|x: int, y: int|
                0 <= x < y < nodes_remaining.len() implies nodes_remaining[x]
                != nodes_remaining[y] by {
                let from_x = if x < i { x } else { x + 1 };
                let from_y = if y < i { y } else { y + 1 };
                assert(nodes_remaining[x] == left_before[from_x]);
                assert(nodes_remaining[y] == left_before[from_y]);
            }
            assert forall|x: int, y: int|
                0 <= x < starting_path.len() && 0 <= y
                    < nodes_remaining.len() implies starting_path[x] != nodes_remaining[y] by {
                let from_y = if y < i { y } else { y + 1 };
                assert(nodes_remaining[y] == left_before[from_y]);
                if x < path_before.len() {
                    assert(starting_path[x] == path_before[x]);
                } else {
                    assert(starting_path[x] == left_before[i as int]);
                    if from_y < i {
                        assert(left_before[from_y] != left_before[i as int]);
                    } else {
                        assert(left_before[i as int] != left_before[from_y]);
                    }
                }
            }
            assert forall|x: int| 0 <= x < nodes_remaining.len() implies first
                <= #[trigger] nodes_remaining[x] < node_count by {
                let from_x = if x < i { x } else { x + 1 };
                assert(nodes_remaining[x] == left_before[from_x]);
            }
            assert forall|x: int, y: int| 0 <= x < y < starting_path.len() implies starting_path[x]
                != starting_path[y] by {
                if y == path_before.len() {
                    assert(starting_path[x] == path_before[x]);
                    assert(starting_path[y] == left_before[i as int]);
                }
            }
        }
        k += 1;
    }
    proof {
        assert(draws@.skip(k as int).len() == 0);
        assert(starting_path@ + Seq::<usize>::empty() =~= starting_path@);
        assert(head =~= if first == 1 { seq![0usize] } else { Seq::<usize>::empty() });
        assert(Seq::<usize>::empty() + drawn_order(all, draws@) =~= drawn_order(all, draws@));
    }
    starting_path
}

/// The first `k` draws that a tour of `count` free nodes asks for: a
/// position among the nodes that are left, one node fewer each time.
pub open spec fn tour_drawings(count: nat, k: nat) -> Seq<(int, int, int)> {
    Seq::new(k, |i: int| index_draw(count - i))
}

/// The positions that a generator made from `seed` draws for a tour of
/// `count` free nodes.
pub open spec fn seeded_draws(seed: u64, count: nat) -> Seq<usize> {
    Seq::new(count, |k: int| seeded_draw(seed, tour_drawings(count, (k + 1) as nat)) as usize)
}

/// The tour that a seed gives.
pub open spec fn seeded_tour(node_count: nat, seed: u64, preserve_first: bool) -> Seq<usize> {
    drawn_tour(
        node_count,
        seeded_draws(seed, free_nodes(node_count, preserve_first).len()),
        preserve_first,
    )
}

/// A random tour of `node_count` nodes: the nodes are drawn one by one,
/// each uniformly among those that are left. With `preserve_first`, node
/// 0 is put first and the others are drawn. With a seed the generator is
/// the one that the seed determines; without one it is seeded from the
/// operating system.
pub fn random_solution(node_count: usize, seed: Option<u64>, preserve_first: bool) -> (path: Vec<
    usize,
>)
    ensures
        is_tour(path@, node_count as nat),
        preserve_first && node_count > 0 ==> path@[0] == 0,
        exists|draws: Seq<usize>|
            are_draws(draws, free_nodes(node_count as nat, preserve_first).len()) && path@
                == drawn_tour(node_count as nat, draws, preserve_first),
        seed is Some ==> path@ == seeded_tour(node_count as nat, seed->0, preserve_first),
{
    let mut rng = Generator::new(seed);
    let count: usize = if preserve_first && node_count > 0 {
        node_count - 1
    } else {
        node_count
    };
    let mut draws: Vec<usize> = Vec::new();
    let mut k: usize = 0;
    assert(rng.drawn() =~= tour_drawings(count as nat, 0));
    while k < count
        invariant
            k <= count,
            draws.len() == k,
            forall|j: int| 0 <= j < k ==> #[trigger] draws[j] < count - j,
            rng.seed() == seed,
            rng.drawn() == tour_drawings(count as nat, k as nat),
            seed is Some ==> forall|j: int|
                0 <= j < k ==> #[trigger] draws[j] == seeded_draws(seed->0, count as nat)[j],
        decreases count - k,
    {
        let i: usize = sample_below(&mut rng, count - k);
        proof {
            assert(tour_drawings(count as nat, k as nat).push(index_draw(count - k))
                =~= tour_drawings(count as nat, (k + 1) as nat));
        }
        draws.push(i);
        k += 1;
    }
    proof {
        if seed is Some {
            assert(draws@ =~= seeded_draws(seed->0, count as nat));
        }
    }
    tour_from_draws(node_count, &draws, preserve_first)
}

} // verus!
