//! 2-opt: in each pass the move with the least gain is made, as long as one
//! shortens the tour.

use vstd::prelude::*;
use crate::counting::{factorial, lemma_different_tours_are_few};
use crate::helpers::{random_solution, seeded_tour, tour_len};
use crate::model::{
    every_tour_fits, first_free, is_distance_matrix, is_symmetric, is_tour,
    lemma_tour_length_prefix, reversed_between, scanned_before, tour_length, visits_nodes,
};
use crate::rearrange::{lemma_reversal_gain, lemma_reversed_is_tour, two_opt_gain};

verus! {

/// No 2-opt move from position `from` on shortens the tour.
pub open spec fn is_two_opt_optimal(t: Seq<usize>, m: Seq<Seq<i32>>, from: int) -> bool {
    forall|i: int, j: int| from <= i < j < t.len() ==> 0 <= #[trigger] two_opt_gain(t, m, i, j)
}

/// `(a, b)` is the move that a pass makes: it shortens the tour, no move
/// gains less, and every move scanned before it gains more.
pub open spec fn is_best_two_opt_move(
    t: Seq<usize>,
    m: Seq<Seq<i32>>,
    from: int,
    a: int,
    b: int,
) -> bool {
    &&& from <= a < b < t.len()
    &&& two_opt_gain(t, m, a, b) < 0
    &&& forall|i: int, j: int|
        from <= i < j < t.len() ==> two_opt_gain(t, m, a, b) <= #[trigger] two_opt_gain(
            t,
            m,
            i,
            j,
        )
    &&& forall|i: int, j: int|
        from <= i < j < t.len() && scanned_before(i, j, a, b) ==> two_opt_gain(t, m, a, b)
            < #[trigger] two_opt_gain(t, m, i, j)
}

/// The tour after one pass: the best move made, or the tour itself where
/// no move shortens it.
pub open spec fn two_opt_pass(t: Seq<usize>, m: Seq<Seq<i32>>, from: int) -> Seq<usize> {
    if exists|a: int, b: int| is_best_two_opt_move(t, m, from, a, b) {
        let (a, b) = choose|a: int, b: int| is_best_two_opt_move(t, m, from, a, b);
        reversed_between(t, a + 1, b)
    } else {
        t
    }
}

/// The tour after `passes` passes.
pub open spec fn two_opt_passes(
    t: Seq<usize>,
    m: Seq<Seq<i32>>,
    from: int,
    passes: nat,
) -> Seq<usize>
    decreases passes,
{
    if passes == 0 {
        t
    } else {
        two_opt_pass(two_opt_passes(t, m, from, (passes - 1) as nat), m, from)
    }
}

/// A pass has at most one best move.
pub proof fn lemma_best_two_opt_move_unique(
    t: Seq<usize>,
    m: Seq<Seq<i32>>,
    from: int,
    a: int,
    b: int,
    c: int,
    d: int,
)
    requires
        is_best_two_opt_move(t, m, from, a, b),
        is_best_two_opt_move(t, m, from, c, d),
    ensures
        a == c,
        b == d,
{
    if scanned_before(a, b, c, d) {
        assert(two_opt_gain(t, m, c, d) < two_opt_gain(t, m, a, b));
        assert(two_opt_gain(t, m, a, b) <= two_opt_gain(t, m, c, d));
    } else if scanned_before(c, d, a, b) {
        assert(two_opt_gain(t, m, a, b) < two_opt_gain(t, m, c, d));
        assert(two_opt_gain(t, m, c, d) <= two_opt_gain(t, m, a, b));
    }
}

/// A pass at its best move reverses the stretch between the two edges.
pub proof fn lemma_two_opt_pass_moves(t: Seq<usize>, m: Seq<Seq<i32>>, from: int, a: int, b: int)
    requires
        is_best_two_opt_move(t, m, from, a, b),
    ensures
        two_opt_pass(t, m, from) == reversed_between(t, a + 1, b),
{
    let (c, d) = choose|c: int, d: int| is_best_two_opt_move(t, m, from, c, d);
    lemma_best_two_opt_move_unique(t, m, from, a, b, c, d);
}

/// A pass leaves a tour that no move shortens as it is.
pub proof fn lemma_two_opt_pass_rests(t: Seq<usize>, m: Seq<Seq<i32>>, from: int)
    requires
        is_two_opt_optimal(t, m, from),
    ensures
        two_opt_pass(t, m, from) == t,
{
    assert forall|a: int, b: int| !is_best_two_opt_move(t, m, from, a, b) by {
        if from <= a < b < t.len() {
            assert(0 <= two_opt_gain(t, m, a, b));
        }
    }
}

/// Once no move shortens the tour, further passes change nothing.
pub proof fn lemma_two_opt_passes_rest(
    t: Seq<usize>,
    m: Seq<Seq<i32>>,
    from: int,
    passes: nat,
    more: nat,
)
    requires
        passes <= more,
        is_two_opt_optimal(two_opt_passes(t, m, from, passes), m, from),
    ensures
        two_opt_passes(t, m, from, more) == two_opt_passes(t, m, from, passes),
    decreases more - passes,
{
    if passes < more {
        lemma_two_opt_passes_rest(t, m, from, passes, (more - 1) as nat);
        lemma_two_opt_pass_rests(two_opt_passes(t, m, from, passes), m, from);
    }
}

/// A search has one end: two tours that it comes to, and that no move
/// shortens, are the same.
pub proof fn lemma_two_opt_ends_once(
    t: Seq<usize>,
    m: Seq<Seq<i32>>,
    from: int,
    passes: nat,
    other: nat,
)
    requires
        is_two_opt_optimal(two_opt_passes(t, m, from, passes), m, from),
        is_two_opt_optimal(two_opt_passes(t, m, from, other), m, from),
    ensures
        two_opt_passes(t, m, from, passes) == two_opt_passes(t, m, from, other),
{
    if passes <= other {
        lemma_two_opt_passes_rest(t, m, from, passes, other);
    } else {
        lemma_two_opt_passes_rest(t, m, from, other, passes);
    }
}

/// The tour that the search comes to from `t` with `budget` passes at
/// most: `t` itself where no move shortens it or no pass is left, else
/// what the search comes to after one pass.
pub open spec fn two_opt_search(
    t: Seq<usize>,
    m: Seq<Seq<i32>>,
    from: int,
    budget: nat,
) -> Seq<usize>
    decreases budget,
{
    if budget == 0 || is_two_opt_optimal(t, m, from) {
        t
    } else {
        two_opt_search(two_opt_pass(t, m, from), m, from, (budget - 1) as nat)
    }
}

/// `end` is where the passes from `t` end: they come to it, and no move
/// shortens it.
pub open spec fn is_two_opt_end(
    t: Seq<usize>,
    m: Seq<Seq<i32>>,
    from: int,
    end: Seq<usize>,
) -> bool {
    &&& is_two_opt_optimal(end, m, from)
    &&& exists|passes: nat| end == #[trigger] two_opt_passes(t, m, from, passes)
}

/// The tour in which the passes from `t` end.
pub open spec fn two_opt_end(t: Seq<usize>, m: Seq<Seq<i32>>, from: int) -> Seq<usize> {
    choose|end: Seq<usize>| is_two_opt_end(t, m, from, end)
}

/// A tour in which the passes end is the end of the passes.
pub proof fn lemma_two_opt_end(t: Seq<usize>, m: Seq<Seq<i32>>, from: int, end: Seq<usize>)
    requires
        is_two_opt_end(t, m, from, end),
    ensures
        two_opt_end(t, m, from) == end,
{
    let chosen = two_opt_end(t, m, from);
    assert(is_two_opt_end(t, m, from, chosen));
    let passes = choose|passes: nat| end == #[trigger] two_opt_passes(t, m, from, passes);
    let other = choose|other: nat| chosen == #[trigger] two_opt_passes(t, m, from, other);
    lemma_two_opt_ends_once(t, m, from, passes, other);
}

/// What the scan of a pass knows when it stands before the pair `(i, j)`:
/// `least` is the least gain among the pairs scanned so far if that is
/// negative, and `(a, b)` is the first pair that has it.
pub open spec fn scan_holds(
    t: Seq<usize>,
    m: Seq<Seq<i32>>,
    from: int,
    i: int,
    j: int,
    found: bool,
    a: int,
    b: int,
    least: int,
) -> bool {
    &&& found <==> least < 0
    &&& !found ==> least == 0
    &&& found ==> from <= a < b < t.len() && scanned_before(a, b, i, j) && two_opt_gain(
        t,
        m,
        a,
        b,
    ) == least
    &&& forall|x: int, y: int|
        from <= x < y < t.len() && scanned_before(x, y, i, j) ==> least <= #[trigger] two_opt_gain(
            t,
            m,
            x,
            y,
        )
    &&& forall|x: int, y: int|
        found && from <= x < y < t.len() && scanned_before(x, y, a, b) ==> least
            < #[trigger] two_opt_gain(t, m, x, y)
}

/// Reverses the stretch of positions `lo..=hi` of `tour` in place.
pub fn reverse_between(tour: &mut Vec<usize>, lo: usize, hi: usize)
    requires
        hi < old(tour).len(),
    ensures
        final(tour)@ == reversed_between(old(tour)@, lo as int, hi as int),
{
    let ghost before = tour@;
    let mut a: usize = lo;
    let mut b: usize = hi;
    while a < b
        invariant
            b <= hi < before.len(),
            lo <= a,
            a <= b + 1 || a == lo,
            a + b == lo + hi,
            tour.len() == before.len(),
            forall|k: int|
                0 <= k < before.len() ==> #[trigger] tour@[k] == if lo <= k < a || b < k <= hi {
                    before[lo + hi - k]
                } else {
                    before[k]
                },
        decreases b,
    {
        let x: usize = tour[a];
        let y: usize = tour[b];
        tour[a] = y;
        tour[b] = x;
        a += 1;
        b -= 1;
    }
    assert(tour@ =~= reversed_between(before, lo as int, hi as int));
}

/// The gain of the 2-opt move on the edges that leave positions `i` and `j`.
fn gain_of(tour: &Vec<usize>, distance_matrix: &Vec<Vec<i32>>, i: usize, j: usize) -> (gain: i64)
    requires
        is_distance_matrix(distance_matrix.deep_view()),
        visits_nodes(tour@, distance_matrix.len() as nat),
        i < j < tour.len(),
    ensures
        gain == two_opt_gain(tour@, distance_matrix.deep_view(), i as int, j as int),
{
    let n: usize = tour.len();
    let ghost m = distance_matrix.deep_view();
    let after_j: usize = (j + 1) % n;
    let p: usize = tour[i];
    let q: usize = tour[i + 1];
    let r: usize = tour[j];
    let s: usize = tour[after_j];
    proof {
        assert(m[p as int].len() == m.len());
        assert(m[q as int].len() == m.len());
        assert(m[r as int].len() == m.len());
        assert(0 <= m[p as int][r as int]);
        assert(0 <= m[q as int][s as int]);
        assert(0 <= m[p as int][q as int]);
        assert(0 <= m[r as int][s as int]);
    }
    distance_matrix[p][r] as i64 + distance_matrix[q][s] as i64 - distance_matrix[p][q] as i64
        - distance_matrix[r][s] as i64
}

/// 2-opt from `starting_tour`: as long as some move shortens the tour, the
/// move with the least gain is made, the first such in scan order. Returns
/// the tour at which no move shortens it, and its length.
///
/// The first node stays in place. With `preserve_first`, the edge that
/// leaves it stays too.
///
/// Over a symmetric matrix each pass shortens the tour, so that the
/// passes end. Over another a pass may lengthen it and the passes need
/// not end: the search makes as many passes at most as the starting
/// tour is long, which over a symmetric matrix is never too few.
pub fn two_opt(
    starting_tour: &Vec<usize>,
    distance_matrix: &Vec<Vec<i32>>,
    preserve_first: bool,
) -> (r: (Vec<usize>, i32))
    requires
        starting_tour.len() > 0,
        is_tour(starting_tour@, distance_matrix.len() as nat),
        is_distance_matrix(distance_matrix.deep_view()),
        tour_length(starting_tour@, distance_matrix.deep_view()) <= i32::MAX,
        is_symmetric(distance_matrix.deep_view()) || every_tour_fits(distance_matrix.deep_view()),
    ensures
        is_tour(r.0@, distance_matrix.len() as nat),
        r.0@[0] == starting_tour@[0],
        r.1 == tour_length(r.0@, distance_matrix.deep_view()),
        r.0@ == two_opt_search(
            starting_tour@,
            distance_matrix.deep_view(),
            first_free(preserve_first),
            tour_length(starting_tour@, distance_matrix.deep_view()) as nat,
        ),
        exists|passes: nat|
            {
                &&& passes <= tour_length(starting_tour@, distance_matrix.deep_view())
                &&& is_symmetric(distance_matrix.deep_view()) ==> passes <= tour_length(
                    starting_tour@,
                    distance_matrix.deep_view(),
                ) - r.1
                &&& is_symmetric(distance_matrix.deep_view()) ==> passes < factorial(
                    distance_matrix.len() as nat,
                )
                &&& r.0@ == #[trigger] two_opt_passes(
                    starting_tour@,
                    distance_matrix.deep_view(),
                    first_free(preserve_first),
                    passes,
                )
                &&& is_two_opt_optimal(
                    r.0@,
                    distance_matrix.deep_view(),
                    first_free(preserve_first),
                ) || passes == tour_length(starting_tour@, distance_matrix.deep_view())
            },
        is_symmetric(distance_matrix.deep_view()) ==> {
            &&& r.1 <= tour_length(starting_tour@, distance_matrix.deep_view())
            &&& is_two_opt_optimal(r.0@, distance_matrix.deep_view(), first_free(preserve_first))
            &&& r.0@ == two_opt_end(
                starting_tour@,
                distance_matrix.deep_view(),
                first_free(preserve_first),
            )
        },
{
    let mut tour: Vec<usize> = starting_tour.clone();
    assert(tour@ == starting_tour@);
    let n: usize = tour.len();
    let ghost m = distance_matrix.deep_view();
    let ghost from = first_free(preserve_first);
    let ghost mut passes: nat = 0;
    let ghost length_at_start = tour_length(starting_tour@, m);
    proof {
        lemma_tour_length_prefix(starting_tour@, m, 0);
    }
    let mut budget: i32 = tour_len(&tour, distance_matrix);
    let mut improvement: bool = true;
    let ghost mut seen: Seq<Seq<usize>> = seq![tour@];

    while improvement
        invariant_except_break
            improvement,
        invariant
            seen.len() == passes + 1,
            forall|k: int| 0 <= k < seen.len() ==> is_tour(#[trigger] seen[k], n as nat),
            is_symmetric(m) ==> forall|k: int|
                0 <= k < seen.len() ==> tour_length(tour@, m) <= tour_length(
                    #[trigger] seen[k],
                    m,
                ),
            is_symmetric(m) ==> forall|i: int, j: int|
                0 <= i < j < seen.len() ==> seen[i] != seen[j],
            n == tour.len(),
            n == starting_tour.len(),
            n == distance_matrix.len(),
            n > 0,
            m == distance_matrix.deep_view(),
            from == first_free(preserve_first),
            is_distance_matrix(m),
            is_symmetric(m) || every_tour_fits(m),
            is_tour(tour@, n as nat),
            tour@[0] == starting_tour@[0],
            length_at_start == tour_length(starting_tour@, m) <= i32::MAX,
            0 <= budget,
            passes + budget == length_at_start,
            is_symmetric(m) ==> tour_length(tour@, m) <= length_at_start - passes,
            tour@ == two_opt_passes(starting_tour@, m, from, passes),
            two_opt_search(starting_tour@, m, from, length_at_start as nat) == two_opt_search(
                tour@,
                m,
                from,
                budget as nat,
            ),
        ensures
            n == tour.len(),
            is_tour(tour@, n as nat),
            tour@[0] == starting_tour@[0],
            0 <= budget,
            passes + budget == length_at_start,
            is_symmetric(m) ==> tour_length(tour@, m) <= length_at_start - passes,
            tour@ == two_opt_passes(starting_tour@, m, from, passes),
            two_opt_search(starting_tour@, m, from, length_at_start as nat) == tour@,
            is_two_opt_optimal(tour@, m, from) || budget == 0,
            is_symmetric(m) ==> is_two_opt_optimal(tour@, m, from),
            seen.len() == passes + 1,
            forall|k: int| 0 <= k < seen.len() ==> is_tour(#[trigger] seen[k], n as nat),
            is_symmetric(m) ==> forall|i: int, j: int|
                0 <= i < j < seen.len() ==> seen[i] != seen[j],
        decreases budget,
    {
        improvement = false;
        let mut min_dist: i64 = 0;
        let mut a: usize = 0;
        let mut b: usize = 0;

        let start: usize = match preserve_first {
            true => 1,
            false => 0,
        };

        let mut i: usize = start;
        while i < n - 1
            invariant
                start <= i,
                start == from,
                n == tour.len(),
                n == distance_matrix.len(),
                n > 0,
                m == distance_matrix.deep_view(),
                is_distance_matrix(m),
                is_tour(tour@, n as nat),
                scan_holds(
                    tour@,
                    m,
                    from,
                    i as int,
                    i + 1,
                    improvement,
                    a as int,
                    b as int,
                    min_dist as int,
                ),
            decreases n - i,
        {
            let mut j: usize = i + 1;
            while j < n
                invariant
                    start <= i < n - 1,
                    i < j <= n,
                    start == from,
                    n == tour.len(),
                    n == distance_matrix.len(),
                    m == distance_matrix.deep_view(),
                    is_distance_matrix(m),
                    is_tour(tour@, n as nat),
                    scan_holds(
                        tour@,
                        m,
                        from,
                        i as int,
                        j as int,
                        improvement,
                        a as int,
                        b as int,
                        min_dist as int,
                    ),
                decreases n - j,
            {
                let distance: i64 = gain_of(&tour, distance_matrix, i, j);

                if distance < min_dist {
                    min_dist = distance;
                    a = i;
                    b = j;
                    improvement = true;
                }
                j += 1;
            }
            i += 1;
        }

        if !improvement {
            proof {
                assert forall|x: int, y: int| from <= x < y < n implies 0
                    <= #[trigger] two_opt_gain(tour@, m, x, y) by {
                    assert(scanned_before(x, y, i as int, i + 1));
                }
            }
            break ;
        }
        proof {
            assert forall|x: int, y: int| from <= x < y < n implies min_dist
                <= #[trigger] two_opt_gain(tour@, m, x, y) by {
                assert(scanned_before(x, y, i as int, i + 1));
            }
            assert(is_best_two_opt_move(tour@, m, from, a as int, b as int));
            assert(!is_two_opt_optimal(tour@, m, from)) by {
                assert(two_opt_gain(tour@, m, a as int, b as int) < 0);
            }
            lemma_two_opt_pass_moves(tour@, m, from, a as int, b as int);
            lemma_reversed_is_tour(tour@, n as nat, a + 1, b as int);
            lemma_tour_length_prefix(reversed_between(tour@, a + 1, b as int), m, 0);
            lemma_tour_length_prefix(tour@, m, 0);
            if is_symmetric(m) {
                lemma_reversal_gain(tour@, m, a as int, b as int);
            }
        }
        if budget == 0 {
            // Over a symmetric matrix a tour of length 0 has no move that shortens it.
            break ;
        }
        budget -= 1;
        proof {
            let ghost earlier = seen;
            let ghost next = reversed_between(tour@, a + 1, b as int);
            seen = earlier.push(next);
            if is_symmetric(m) {
                assert forall|i: int, j: int| 0 <= i < j < seen.len() implies seen[i]
                    != seen[j] by {
                    if j == earlier.len() {
                        assert(tour_length(tour@, m) <= tour_length(earlier[i], m));
                    } else {
                        assert(earlier[i] != earlier[j]);
                    }
                }
                assert forall|k: int| 0 <= k < seen.len() implies tour_length(next, m)
                    <= tour_length(#[trigger] seen[k], m) by {
                    if k < earlier.len() {
                        assert(tour_length(tour@, m) <= tour_length(earlier[k], m));
                    }
                }
            }
            passes = passes + 1;
        }

        //reverse [a+1, b]
        reverse_between(&mut tour, a + 1, b);
    }

    proof {
        if is_symmetric(m) {
            lemma_two_opt_end(starting_tour@, m, from, tour@);
            lemma_different_tours_are_few(seen, n as nat);
        }
    }
    let len: i32 = tour_len(&tour, distance_matrix);
    (tour, len)
}

/// 2-opt from a random tour of the nodes of the matrix.
///
/// Which tour the search starts from is the generator's choice: the
/// result is the end of the search from some tour that starts at node 0
/// where `preserve_first` asks for it.
pub fn two_opt_random(
    distance_matrix: &Vec<Vec<i32>>,
    seed: Option<u64>,
    preserve_first: bool,
) -> (r: (Vec<usize>, i32))
    requires
        distance_matrix.len() > 0,
        is_distance_matrix(distance_matrix.deep_view()),
        every_tour_fits(distance_matrix.deep_view()),
    ensures
        is_tour(r.0@, distance_matrix.len() as nat),
        preserve_first ==> r.0@[0] == 0,
        r.1 == tour_length(r.0@, distance_matrix.deep_view()),
        is_symmetric(distance_matrix.deep_view()) ==> is_two_opt_optimal(
            r.0@,
            distance_matrix.deep_view(),
            first_free(preserve_first),
        ),
        seed is Some ==> r.0@ == two_opt_search(
            seeded_tour(distance_matrix.len() as nat, seed->0, preserve_first),
            distance_matrix.deep_view(),
            first_free(preserve_first),
            tour_length(
                seeded_tour(distance_matrix.len() as nat, seed->0, preserve_first),
                distance_matrix.deep_view(),
            ) as nat,
        ),
        exists|start: Seq<usize>, passes: nat|
            {
                &&& is_tour(start, distance_matrix.len() as nat)
                &&& preserve_first ==> start[0] == 0
                &&& seed is Some ==> start == seeded_tour(
                    distance_matrix.len() as nat,
                    seed->0,
                    preserve_first,
                )
                &&& passes <= tour_length(start, distance_matrix.deep_view())
                &&& is_symmetric(distance_matrix.deep_view()) ==> passes <= tour_length(
                    start,
                    distance_matrix.deep_view(),
                ) - r.1
                &&& is_symmetric(distance_matrix.deep_view()) ==> passes < factorial(
                    distance_matrix.len() as nat,
                )
                &&& r.0@ == #[trigger] two_opt_passes(
                    start,
                    distance_matrix.deep_view(),
                    first_free(preserve_first),
                    passes,
                )
            },
{
    let starting_tour: Vec<usize> = random_solution(distance_matrix.len(), seed, preserve_first);
    two_opt(&starting_tour, distance_matrix, preserve_first)
}

} // verus!
