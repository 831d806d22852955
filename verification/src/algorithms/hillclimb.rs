//! Steepest-descent hill climbing over the swaps of two positions: in each
//! step the shortest neighbour is taken, as long as it is shorter than the
//! tour itself.

use vstd::prelude::*;
use crate::counting::{factorial, lemma_different_tours_are_few};
use crate::helpers::{random_solution, seeded_tour, tour_len, tour_len_wide};
use crate::model::{
    every_tour_fits, first_free, is_distance_matrix, is_tour, lemma_tour_length_prefix,
    scanned_before, swapped, tour_length, visits_nodes,
};
use crate::rearrange::lemma_swapped_is_tour;

verus! {

/// The length of the tour with positions `i` and `j` exchanged.
pub open spec fn swap_length(t: Seq<usize>, m: Seq<Seq<i32>>, i: int, j: int) -> int {
    tour_length(swapped(t, i, j), m)
}

/// No swap of two positions from `from` on gives a shorter tour.
pub open spec fn is_swap_optimal(t: Seq<usize>, m: Seq<Seq<i32>>, from: int) -> bool {
    forall|i: int, j: int|
        from <= i < j < t.len() ==> tour_length(t, m) <= #[trigger] swap_length(t, m, i, j)
}

/// `(a, b)` is the swap that gives the best neighbour: no swap gives a
/// shorter tour, and every swap scanned before it gives a longer one.
pub open spec fn is_best_swap(t: Seq<usize>, m: Seq<Seq<i32>>, from: int, a: int, b: int) -> bool {
    &&& from <= a < b < t.len()
    &&& forall|i: int, j: int|
        from <= i < j < t.len() ==> swap_length(t, m, a, b) <= #[trigger] swap_length(t, m, i, j)
    &&& forall|i: int, j: int|
        from <= i < j < t.len() && scanned_before(i, j, a, b) ==> swap_length(t, m, a, b)
            < #[trigger] swap_length(t, m, i, j)
}

/// `(a, b)` is the best swap, and it shortens the tour.
pub open spec fn is_improving_swap(
    t: Seq<usize>,
    m: Seq<Seq<i32>>,
    from: int,
    a: int,
    b: int,
) -> bool {
    is_best_swap(t, m, from, a, b) && swap_length(t, m, a, b) < tour_length(t, m)
}

/// The tour after one step: the best neighbour where it is shorter, else
/// the tour itself.
pub open spec fn hill_step(t: Seq<usize>, m: Seq<Seq<i32>>, from: int) -> Seq<usize> {
    if exists|a: int, b: int| is_improving_swap(t, m, from, a, b) {
        let (a, b) = choose|a: int, b: int| is_improving_swap(t, m, from, a, b);
        swapped(t, a, b)
    } else {
        t
    }
}

/// The tour after `steps` steps.
pub open spec fn hill_steps(t: Seq<usize>, m: Seq<Seq<i32>>, from: int, steps: nat) -> Seq<usize>
    decreases steps,
{
    if steps == 0 {
        t
    } else {
        hill_step(hill_steps(t, m, from, (steps - 1) as nat), m, from)
    }
}

/// A tour has at most one best swap.
pub proof fn lemma_best_swap_unique(
    t: Seq<usize>,
    m: Seq<Seq<i32>>,
    from: int,
    a: int,
    b: int,
    c: int,
    d: int,
)
    requires
        is_best_swap(t, m, from, a, b),
        is_best_swap(t, m, from, c, d),
    ensures
        a == c,
        b == d,
{
    if scanned_before(a, b, c, d) {
        assert(swap_length(t, m, c, d) < swap_length(t, m, a, b));
        assert(swap_length(t, m, a, b) <= swap_length(t, m, c, d));
    } else if scanned_before(c, d, a, b) {
        assert(swap_length(t, m, a, b) < swap_length(t, m, c, d));
        assert(swap_length(t, m, c, d) <= swap_length(t, m, a, b));
    }
}

/// A step at a best swap that shortens the tour makes that swap.
pub proof fn lemma_hill_step_moves(t: Seq<usize>, m: Seq<Seq<i32>>, from: int, a: int, b: int)
    requires
        is_improving_swap(t, m, from, a, b),
    ensures
        hill_step(t, m, from) == swapped(t, a, b),
{
    let (c, d) = choose|c: int, d: int| is_improving_swap(t, m, from, c, d);
    lemma_best_swap_unique(t, m, from, a, b, c, d);
}

/// A step leaves a tour that no swap shortens as it is.
pub proof fn lemma_hill_step_rests(t: Seq<usize>, m: Seq<Seq<i32>>, from: int)
    requires
        is_swap_optimal(t, m, from),
    ensures
        hill_step(t, m, from) == t,
{
    assert forall|a: int, b: int| !is_improving_swap(t, m, from, a, b) by {
        if from <= a < b < t.len() {
            assert(tour_length(t, m) <= swap_length(t, m, a, b));
        }
    }
}

/// Once no swap shortens the tour, further steps change nothing.
pub proof fn lemma_hill_steps_rest(
    t: Seq<usize>,
    m: Seq<Seq<i32>>,
    from: int,
    steps: nat,
    more: nat,
)
    requires
        steps <= more,
        is_swap_optimal(hill_steps(t, m, from, steps), m, from),
    ensures
        hill_steps(t, m, from, more) == hill_steps(t, m, from, steps),
    decreases more - steps,
{
    if steps < more {
        lemma_hill_steps_rest(t, m, from, steps, (more - 1) as nat);
        lemma_hill_step_rests(hill_steps(t, m, from, steps), m, from);
    }
}

/// A descent has one end: two tours that it comes to, and that no swap
/// shortens, are the same.
pub proof fn lemma_hill_descent_ends_once(
    t: Seq<usize>,
    m: Seq<Seq<i32>>,
    from: int,
    steps: nat,
    other: nat,
)
    requires
        is_swap_optimal(hill_steps(t, m, from, steps), m, from),
        is_swap_optimal(hill_steps(t, m, from, other), m, from),
    ensures
        hill_steps(t, m, from, steps) == hill_steps(t, m, from, other),
{
    if steps <= other {
        lemma_hill_steps_rest(t, m, from, steps, other);
    } else {
        lemma_hill_steps_rest(t, m, from, other, steps);
    }
}

/// `end` is where the descent from `t` ends: the descent comes to it, and
/// no swap shortens it.
pub open spec fn is_hill_end(t: Seq<usize>, m: Seq<Seq<i32>>, from: int, end: Seq<usize>) -> bool {
    &&& is_swap_optimal(end, m, from)
    &&& exists|steps: nat| end == #[trigger] hill_steps(t, m, from, steps)
}

/// The tour in which the descent from `t` ends.
pub open spec fn hill_end(t: Seq<usize>, m: Seq<Seq<i32>>, from: int) -> Seq<usize> {
    choose|end: Seq<usize>| is_hill_end(t, m, from, end)
}

/// A tour in which the descent ends is the end of the descent.
pub proof fn lemma_hill_end(t: Seq<usize>, m: Seq<Seq<i32>>, from: int, end: Seq<usize>)
    requires
        is_hill_end(t, m, from, end),
    ensures
        hill_end(t, m, from) == end,
{
    let chosen = hill_end(t, m, from);
    assert(is_hill_end(t, m, from, chosen));
    let steps = choose|steps: nat| end == #[trigger] hill_steps(t, m, from, steps);
    let other = choose|other: nat| chosen == #[trigger] hill_steps(t, m, from, other);
    lemma_hill_descent_ends_once(t, m, from, steps, other);
}

/// `pairs` holds the pair `(i, j)`.
pub open spec fn has_pair(pairs: Seq<(int, int)>, i: int, j: int) -> bool {
    exists|k: int| 0 <= k < pairs.len() && #[trigger] pairs[k] == (i, j)
}

/// `neighbors` holds the swaps of `t` that `pairs` names, one for one, and
/// `pairs` holds every pair of positions from `from` on, in scan order.
pub open spec fn lists_swaps(
    neighbors: Seq<Vec<usize>>,
    pairs: Seq<(int, int)>,
    t: Seq<usize>,
    from: int,
) -> bool {
    &&& pairs.len() == neighbors.len()
    &&& forall|k: int|
        0 <= k < pairs.len() ==> {
            &&& from <= (#[trigger] pairs[k]).0 < pairs[k].1 < t.len()
            &&& neighbors[k]@ == swapped(t, pairs[k].0, pairs[k].1)
        }
    &&& forall|k: int, l: int|
        0 <= k < l < pairs.len() ==> scanned_before(
            (#[trigger] pairs[k]).0,
            pairs[k].1,
            (#[trigger] pairs[l]).0,
            pairs[l].1,
        )
    &&& forall|i: int, j: int| from <= i < j < t.len() ==> #[trigger] has_pair(pairs, i, j)
}

/// `neighbors` is the neighbourhood of `t`: each tour that a swap of two
/// positions from `from` on gives, once, in scan order.
pub open spec fn is_neighborhood(neighbors: Seq<Vec<usize>>, t: Seq<usize>, from: int) -> bool {
    exists|pairs: Seq<(int, int)>| lists_swaps(neighbors, pairs, t, from)
}

/// `best` is the position of the first of the shortest tours in `tours`.
pub open spec fn is_first_shortest(tours: Seq<Vec<usize>>, m: Seq<Seq<i32>>, best: int) -> bool {
    &&& 0 <= best < tours.len()
    &&& forall|k: int|
        0 <= k < tours.len() ==> tour_length(tours[best]@, m) <= tour_length(
            (#[trigger] tours[k])@,
            m,
        )
    &&& forall|k: int|
        0 <= k < best ==> tour_length(tours[best]@, m) < tour_length((#[trigger] tours[k])@, m)
}

/// The neighbourhood of `path`: for each pair of positions `i < j`, the
/// first left out with `preserve_first`, the tour with the two exchanged.
pub fn get_neighbors(path: &Vec<usize>, preserve_first: bool) -> (neighbors: Vec<Vec<usize>>)
    ensures
        is_neighborhood(neighbors@, path@, first_free(preserve_first)),
{
    let mut neighbors: Vec<Vec<usize>> = Vec::new();
    let ghost mut pairs: Seq<(int, int)> = Seq::empty();
    let ghost from = first_free(preserve_first);
    let n: usize = path.len();

    let start: usize = match preserve_first {
        true => 1,
        false => 0,
    };

    let mut i: usize = start;
    while i < n
        invariant
            start <= i,
            start == from,
            n == path.len(),
            pairs.len() == neighbors.len(),
            forall|k: int|
                0 <= k < pairs.len() ==> {
                    &&& from <= (#[trigger] pairs[k]).0 < pairs[k].1 < n
                    &&& neighbors[k]@ == swapped(path@, pairs[k].0, pairs[k].1)
                    &&& pairs[k].0 < i
                },
            forall|k: int, l: int|
                0 <= k < l < pairs.len() ==> scanned_before(
                    (#[trigger] pairs[k]).0,
                    pairs[k].1,
                    (#[trigger] pairs[l]).0,
                    pairs[l].1,
                ),
            forall|x: int, y: int|
                from <= x < y < n && x < i ==> #[trigger] has_pair(pairs, x, y),
        decreases n - i,
    {
        let mut j: usize = i + 1;
        while j < n
            invariant
                start <= i < n,
                i < j <= n,
                start == from,
                n == path.len(),
                pairs.len() == neighbors.len(),
                forall|k: int|
                    0 <= k < pairs.len() ==> {
                        &&& from <= (#[trigger] pairs[k]).0 < pairs[k].1 < n
                        &&& neighbors[k]@ == swapped(path@, pairs[k].0, pairs[k].1)
                        &&& scanned_before(pairs[k].0, pairs[k].1, i as int, j as int)
                    },
                forall|k: int, l: int|
                    0 <= k < l < pairs.len() ==> scanned_before(
                        (#[trigger] pairs[k]).0,
                        pairs[k].1,
                        (#[trigger] pairs[l]).0,
                        pairs[l].1,
                    ),
                forall|x: int, y: int|
                    from <= x < y < n && scanned_before(x, y, i as int, j as int)
                        ==> #[trigger] has_pair(pairs, x, y),
            decreases n - j,
        {
            let mut neighbor: Vec<usize> = path.clone();
            let x: usize = neighbor[i];
            let y: usize = neighbor[j];
            neighbor[i] = y;
            neighbor[j] = x;
            assert(neighbor@ == swapped(path@, i as int, j as int));
            neighbors.push(neighbor);
            proof {
                let ghost before = pairs;
                pairs = pairs.push((i as int, j as int));
                assert forall|x: int, y: int|
                    from <= x < y < n && scanned_before(
                        x,
                        y,
                        i as int,
                        j + 1,
                    ) implies #[trigger] has_pair(pairs, x, y) by {
                    if x == i && y == j {
                        assert(pairs[before.len() as int] == (x, y));
                    } else {
                        assert(has_pair(before, x, y));
                        let k = choose|k: int| 0 <= k < before.len() && before[k] == (x, y);
                        assert(pairs[k] == (x, y));
                    }
                }
            }
            j += 1;
        }
        i += 1;
    }
    proof {
        assert(lists_swaps(neighbors@, pairs, path@, from));
    }
    neighbors
}

/// The first of the shortest tours in `neighbors`, and its length.
pub fn get_best_neighbor(neighbors: &Vec<Vec<usize>>, distance_matrix: &Vec<Vec<i32>>) -> (r: (
    Vec<usize>,
    i128,
))
    requires
        neighbors.len() > 0,
        is_distance_matrix(distance_matrix.deep_view()),
        forall|k: int|
            0 <= k < neighbors.len() ==> (#[trigger] neighbors[k]).len() > 0 && visits_nodes(
                neighbors[k]@,
                distance_matrix.len() as nat,
            ),
    ensures
        exists|best: int|
            is_first_shortest(neighbors@, distance_matrix.deep_view(), best) && r.0@
                == neighbors[best]@,
        r.1 == tour_length(r.0@, distance_matrix.deep_view()),
{
    let ghost m = distance_matrix.deep_view();
    let mut best_len: i128 = tour_len_wide(&neighbors[0], distance_matrix);
    let mut best_neighbor_index: usize = 0;

    let mut i: usize = 1;
    while i < neighbors.len()
        invariant
            1 <= i <= neighbors.len(),
            best_neighbor_index < i,
            m == distance_matrix.deep_view(),
            is_distance_matrix(m),
            forall|k: int|
                0 <= k < neighbors.len() ==> (#[trigger] neighbors[k]).len() > 0 && visits_nodes(
                    neighbors[k]@,
                    distance_matrix.len() as nat,
                ),
            best_len == tour_length(neighbors[best_neighbor_index as int]@, m),
            forall|k: int|
                0 <= k < i ==> best_len <= tour_length((#[trigger] neighbors[k])@, m),
            forall|k: int|
                0 <= k < best_neighbor_index ==> best_len < tour_length(
                    (#[trigger] neighbors[k])@,
                    m,
                ),
        decreases neighbors.len() - i,
    {
        let len: i128 = tour_len_wide(&neighbors[i], distance_matrix);
        if len < best_len {
            best_len = len;
            best_neighbor_index = i;
        }
        i += 1;
    }

    let best: Vec<usize> = neighbors[best_neighbor_index].clone();
    proof {
        assert(best@ == neighbors[best_neighbor_index as int]@);
        assert(is_first_shortest(neighbors@, m, best_neighbor_index as int));
    }
    (best, best_len)
}

/// In a neighbourhood, the first of the shortest tours is the tour that
/// the best swap gives.
pub proof fn lemma_first_shortest_is_best_swap(
    neighbors: Seq<Vec<usize>>,
    pairs: Seq<(int, int)>,
    t: Seq<usize>,
    m: Seq<Seq<i32>>,
    from: int,
    best: int,
)
    requires
        lists_swaps(neighbors, pairs, t, from),
        is_first_shortest(neighbors, m, best),
    ensures
        is_best_swap(t, m, from, pairs[best].0, pairs[best].1),
        neighbors[best]@ == swapped(t, pairs[best].0, pairs[best].1),
{
    let a = pairs[best].0;
    let b = pairs[best].1;
    assert forall|i: int, j: int| from <= i < j < t.len() implies swap_length(t, m, a, b)
        <= #[trigger] swap_length(t, m, i, j) by {
        assert(has_pair(pairs, i, j));
        let k = choose|k: int| 0 <= k < pairs.len() && pairs[k] == (i, j);
        assert(neighbors[k]@ == swapped(t, pairs[k].0, pairs[k].1));
    }
    assert forall|i: int, j: int|
        from <= i < j < t.len() && scanned_before(i, j, a, b) implies swap_length(t, m, a, b)
        < #[trigger] swap_length(t, m, i, j) by {
        assert(has_pair(pairs, i, j));
        let k = choose|k: int| 0 <= k < pairs.len() && pairs[k] == (i, j);
        assert(neighbors[k]@ == swapped(t, pairs[k].0, pairs[k].1));
        if best < k {
            assert(scanned_before(pairs[best].0, pairs[best].1, pairs[k].0, pairs[k].1));
        }
    }
}

/// Hill climbing from `starting_tour`: as long as the best neighbour is
/// shorter than the tour, it takes the tour's place. Returns the tour that
/// no swap shortens, and its length.
///
/// With `preserve_first` the first node stays in place.
pub fn hillclimb(
    starting_tour: &Vec<usize>,
    distance_matrix: &Vec<Vec<i32>>,
    preserve_first: bool,
) -> (r: (Vec<usize>, i32))
    requires
        starting_tour.len() > 0,
        is_tour(starting_tour@, distance_matrix.len() as nat),
        is_distance_matrix(distance_matrix.deep_view()),
        tour_length(starting_tour@, distance_matrix.deep_view()) <= i32::MAX,
    ensures
        is_tour(r.0@, distance_matrix.len() as nat),
        preserve_first ==> r.0@[0] == starting_tour@[0],
        r.1 == tour_length(r.0@, distance_matrix.deep_view()),
        r.1 <= tour_length(starting_tour@, distance_matrix.deep_view()),
        is_swap_optimal(r.0@, distance_matrix.deep_view(), first_free(preserve_first)),
        r.0@ == hill_end(starting_tour@, distance_matrix.deep_view(), first_free(preserve_first)),
        exists|steps: nat|
            {
                &&& steps <= tour_length(starting_tour@, distance_matrix.deep_view()) - r.1
                &&& steps < factorial(distance_matrix.len() as nat)
                &&& r.0@ == #[trigger] hill_steps(
                    starting_tour@,
                    distance_matrix.deep_view(),
                    first_free(preserve_first),
                    steps,
                )
            },
{
    let ghost m = distance_matrix.deep_view();
    let ghost from = first_free(preserve_first);
    let ghost n = distance_matrix.len() as nat;
    let ghost mut steps: nat = 0;
    let mut current_tour: Vec<usize> = starting_tour.clone();
    assert(current_tour@ == starting_tour@);
    let mut current_len: i32 = tour_len(&current_tour, distance_matrix);
    let ghost mut seen: Seq<Seq<usize>> = seq![current_tour@];

    loop
        invariant
            seen.len() == steps + 1,
            seen[steps as int] == current_tour@,
            forall|k: int| 0 <= k < seen.len() ==> is_tour(#[trigger] seen[k], n),
            forall|k: int|
                0 <= k < seen.len() ==> current_len <= tour_length(#[trigger] seen[k], m),
            forall|i: int, j: int| 0 <= i < j < seen.len() ==> seen[i] != seen[j],
            n == distance_matrix.len(),
            n == starting_tour.len(),
            n > 0,
            m == distance_matrix.deep_view(),
            from == first_free(preserve_first),
            is_distance_matrix(m),
            is_tour(current_tour@, n),
            preserve_first ==> current_tour@[0] == starting_tour@[0],
            current_len == tour_length(current_tour@, m),
            steps <= tour_length(starting_tour@, m) - current_len,
            current_tour@ == hill_steps(starting_tour@, m, from, steps),
        ensures
            is_swap_optimal(current_tour@, m, from),
            seen.len() == steps + 1,
            forall|k: int| 0 <= k < seen.len() ==> is_tour(#[trigger] seen[k], n),
            forall|i: int, j: int| 0 <= i < j < seen.len() ==> seen[i] != seen[j],
        decreases current_len,
    {
        let neighbors: Vec<Vec<usize>> = get_neighbors(&current_tour, preserve_first);
        let ghost pairs = choose|pairs: Seq<(int, int)>|
            lists_swaps(neighbors@, pairs, current_tour@, from);
        if neighbors.len() == 0 {
            proof {
                assert forall|i: int, j: int| from <= i < j < n implies tour_length(
                    current_tour@,
                    m,
                ) <= #[trigger] swap_length(current_tour@, m, i, j) by {
                    assert(has_pair(pairs, i, j));
                }
            }
            break ;
        }
        proof {
            assert forall|k: int| 0 <= k < neighbors.len() implies (#[trigger] neighbors[k]).len()
                > 0 && visits_nodes(neighbors[k]@, n) by {
                lemma_swapped_is_tour(current_tour@, n, pairs[k].0, pairs[k].1);
            }
        }
        let (best_neighbor, best_neighbor_len) = get_best_neighbor(&neighbors, distance_matrix);
        let ghost best = choose|best: int|
            is_first_shortest(neighbors@, m, best) && best_neighbor@ == neighbors[best]@;
        let ghost a = pairs[best].0;
        let ghost b = pairs[best].1;
        proof {
            lemma_first_shortest_is_best_swap(neighbors@, pairs, current_tour@, m, from, best);
            lemma_swapped_is_tour(current_tour@, n, a, b);
            lemma_tour_length_prefix(best_neighbor@, m, 0);
        }

        if best_neighbor_len >= current_len as i128 {
            proof {
                assert forall|i: int, j: int| from <= i < j < n implies tour_length(
                    current_tour@,
                    m,
                ) <= #[trigger] swap_length(current_tour@, m, i, j) by {
                    assert(swap_length(current_tour@, m, a, b) <= swap_length(
                        current_tour@,
                        m,
                        i,
                        j,
                    ));
                }
            }
            break ;
        }
        proof {
            assert(is_improving_swap(current_tour@, m, from, a, b));
            lemma_hill_step_moves(current_tour@, m, from, a, b);
            let ghost earlier = seen;
            seen = earlier.push(best_neighbor@);
            assert forall|i: int, j: int| 0 <= i < j < seen.len() implies seen[i] != seen[j] by {
                if j == earlier.len() {
                    assert(current_len <= tour_length(earlier[i], m));
                } else {
                    assert(earlier[i] != earlier[j]);
                }
            }
            steps = steps + 1;
        }
        current_tour = best_neighbor;
        current_len = best_neighbor_len as i32;
    }

    proof {
        lemma_hill_end(starting_tour@, m, from, current_tour@);
        lemma_different_tours_are_few(seen, n);
    }
    (current_tour, current_len)
}

/// Hill climbing from a random tour of the nodes of the matrix.
///
/// Which tour the search starts from is the generator's choice: the
/// result is the end of the search from some tour that starts at node 0
/// where `preserve_first` asks for it.
pub fn hillclimb_rand(
    distance_matrix: &Vec<Vec<i32>>,
    seed: Option<u64>,
    preserve_first: bool,
) -> (r: (Vec<usize>, i32))
    requires
        distance_matrix.len() > 0,
        is_distance_matrix(distance_matrix.deep_view()),
        every_tour_fits(distance_matrix.deep_view()),
    ensures
        is_tour(r.0@, distance_matrix.len() as nat),
        preserve_first ==> r.0@[0] == 0,
        r.1 == tour_length(r.0@, distance_matrix.deep_view()),
        is_swap_optimal(r.0@, distance_matrix.deep_view(), first_free(preserve_first)),
        seed is Some ==> r.0@ == hill_end(
            seeded_tour(distance_matrix.len() as nat, seed->0, preserve_first),
            distance_matrix.deep_view(),
            first_free(preserve_first),
        ),
        exists|start: Seq<usize>, steps: nat|
            {
                &&& is_tour(start, distance_matrix.len() as nat)
                &&& preserve_first ==> start[0] == 0
                &&& seed is Some ==> start == seeded_tour(
                    distance_matrix.len() as nat,
                    seed->0,
                    preserve_first,
                )
                &&& steps <= tour_length(start, distance_matrix.deep_view()) - r.1
                &&& steps < factorial(distance_matrix.len() as nat)
                &&& r.0@ == #[trigger] hill_steps(
                    start,
                    distance_matrix.deep_view(),
                    first_free(preserve_first),
                    steps,
                )
            },
{
    let random_tour: Vec<usize> = random_solution(distance_matrix.len(), seed, preserve_first);
    hillclimb(&random_tour, distance_matrix, preserve_first)
}

} // verus!
