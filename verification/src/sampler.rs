//! Random-restart sampling: a fresh starting tour is found, a local search
//! is run from it, and the local optimum that it ends in is recorded.

use vstd::prelude::*;
use crate::algorithms::hillclimb::{hill_end, hill_steps, hillclimb, is_swap_optimal};
use crate::algorithms::two_opt::{is_two_opt_optimal, two_opt, two_opt_passes, two_opt_search};
use crate::collections::{empty_tour_set, holds_tour, insert_tour, take_tours, tours_held, TourSet};
use crate::helpers::random_solution;
use crate::model::{every_tour_fits, is_distance_matrix, is_symmetric, is_tour, tour_length};
use crate::optima::{recorded_in, LocalOptima};

verus! {

/// The local search that a sampling run uses.
#[derive(Debug, Clone, Copy, PartialEq, Eq, Structural)]
pub enum Algorithm {
    /// Steepest-descent hill climbing over swaps.
    HillClimb,
    /// 2-opt.
    TwoOpt,
}

/// A tour that a search may start from: a tour of `n` nodes with node 0
/// first.
pub open spec fn is_start(t: Seq<usize>, n: nat) -> bool {
    is_tour(t, n) && (n > 0 ==> t[0] == 0)
}

/// No move of the algorithm that leaves the first node in place shortens
/// the tour.
pub open spec fn is_local_optimum(algorithm: Algorithm, t: Seq<usize>, m: Seq<Seq<i32>>) -> bool {
    match algorithm {
        Algorithm::HillClimb => is_swap_optimal(t, m, 1),
        Algorithm::TwoOpt => is_two_opt_optimal(t, m, 1),
    }
}

/// The tour after `moves` moves of the algorithm from `t`, the first node
/// left in place.
pub open spec fn after_moves(
    algorithm: Algorithm,
    t: Seq<usize>,
    m: Seq<Seq<i32>>,
    moves: nat,
) -> Seq<usize> {
    match algorithm {
        Algorithm::HillClimb => hill_steps(t, m, 1, moves),
        Algorithm::TwoOpt => two_opt_passes(t, m, 1, moves),
    }
}

/// The tour in which the search of the algorithm from `start` ends, the
/// first node left in place: for hill climbing the end of the descent, for
/// 2-opt what its passes come to.
pub open spec fn search_end(algorithm: Algorithm, start: Seq<usize>, m: Seq<Seq<i32>>) -> Seq<
    usize,
> {
    match algorithm {
        Algorithm::HillClimb => hill_end(start, m, 1),
        Algorithm::TwoOpt => two_opt_search(start, m, 1, tour_length(start, m) as nat),
    }
}

/// The search of the algorithm ends in a tour that no move shortens:
/// hill climbing always, 2-opt over a symmetric matrix.
pub open spec fn ends_in_optimum(algorithm: Algorithm, m: Seq<Seq<i32>>) -> bool {
    algorithm == Algorithm::HillClimb || is_symmetric(m)
}

/// The starting tours are new to the set `visited`: each is a tour of `n`
/// nodes with node 0 first that the set does not hold, and no two are the
/// same.
pub open spec fn are_new_starts(visited: Set<Seq<usize>>, starts: Seq<Seq<usize>>, n: nat) -> bool {
    &&& forall|k: int|
        0 <= k < starts.len() ==> is_start(#[trigger] starts[k], n) && !visited.contains(
            starts[k],
        )
    &&& forall|i: int, j: int| 0 <= i < j < starts.len() ==> starts[i] != starts[j]
}

/// The set after the starting tours have been entered.
pub open spec fn set_after(visited: Set<Seq<usize>>, starts: Seq<Seq<usize>>) -> Set<Seq<usize>>
    decreases starts.len(),
{
    if starts.len() == 0 {
        visited
    } else {
        set_after(visited, starts.drop_last()).insert(starts.last())
    }
}

/// The table after a search has run from each of the starting tours, in
/// their order, and its end has been recorded with its length.
pub open spec fn table_after(
    table: Map<Seq<usize>, (i32, i32)>,
    starts: Seq<Seq<usize>>,
    algorithm: Algorithm,
    m: Seq<Seq<i32>>,
) -> Map<Seq<usize>, (i32, i32)>
    decreases starts.len(),
{
    if starts.len() == 0 {
        table
    } else {
        let end = search_end(algorithm, starts.last(), m);
        recorded_in(
            table_after(table, starts.drop_last(), algorithm, m),
            end,
            tour_length(end, m) as i32,
        )
    }
}

/// Every entry of the table is a local optimum of the algorithm over the
/// matrix, entered with its length.
pub open spec fn holds_optima_of(
    table: Map<Seq<usize>, (i32, i32)>,
    m: Seq<Seq<i32>>,
    algorithm: Algorithm,
) -> bool {
    forall|t: Seq<usize>| #[trigger]
        table.contains_key(t) ==> {
            &&& is_start(t, m.len())
            &&& table[t].0 == tour_length(t, m)
            &&& is_local_optimum(algorithm, t, m)
        }
}

/// The tours that searches have started from.
pub struct StartingPoints {
    tours: TourSet,
}

impl View for StartingPoints {
    type V = Set<Seq<usize>>;

    closed spec fn view(&self) -> Set<Seq<usize>> {
        tours_held(self.tours)
    }
}

impl StartingPoints {
    /// A set with no tour in it.
    pub fn new() -> (points: Self)
        ensures
            points@ == Set::<Seq<usize>>::empty(),
    {
        StartingPoints { tours: empty_tour_set() }
    }

    /// Tells whether a search has started from `tour`.
    pub fn contains(&self, tour: &Vec<usize>) -> (held: bool)
        ensures
            held == self@.contains(tour@),
    {
        holds_tour(&self.tours, tour)
    }

    /// Enters `tour`; tells whether it is new.
    pub fn insert(&mut self, tour: Vec<usize>) -> (fresh: bool)
        ensures
            final(self)@ == old(self)@.insert(tour@),
            fresh == !old(self)@.contains(tour@),
    {
        insert_tour(&mut self.tours, tour)
    }

    /// The tours of the set in a list, each once, in no stated order.
    pub fn into_tours(self) -> (tours: Vec<Vec<usize>>)
        ensures
            forall|i: int| 0 <= i < tours.len() ==> self@.contains(#[trigger] tours[i]@),
            forall|i: int, j: int| 0 <= i < j < tours.len() ==> tours[i]@ != tours[j]@,
            forall|t: Seq<usize>|
                self@.contains(t) ==> exists|i: int|
                    0 <= i < tours.len() && #[trigger] tours[i]@ == t,
    {
        take_tours(self.tours)
    }
}

/// Runs the local search `algorithm` from `starting_tour`, the first node
/// left in place.
pub fn descend(
    algorithm: Algorithm,
    starting_tour: &Vec<usize>,
    distance_matrix: &Vec<Vec<i32>>,
) -> (r: (Vec<usize>, i32))
    requires
        distance_matrix.len() > 0,
        is_start(starting_tour@, distance_matrix.len() as nat),
        is_distance_matrix(distance_matrix.deep_view()),
        tour_length(starting_tour@, distance_matrix.deep_view()) <= i32::MAX,
        ends_in_optimum(algorithm, distance_matrix.deep_view()) || every_tour_fits(
            distance_matrix.deep_view(),
        ),
    ensures
        is_start(r.0@, distance_matrix.len() as nat),
        r.0@ == search_end(algorithm, starting_tour@, distance_matrix.deep_view()),
        r.1 == tour_length(r.0@, distance_matrix.deep_view()),
        exists|moves: nat|
            r.0@ == #[trigger] after_moves(
                algorithm,
                starting_tour@,
                distance_matrix.deep_view(),
                moves,
            ),
        ends_in_optimum(algorithm, distance_matrix.deep_view()) ==> {
            &&& r.1 <= tour_length(starting_tour@, distance_matrix.deep_view())
            &&& is_local_optimum(algorithm, r.0@, distance_matrix.deep_view())
        },
{
    let ghost m = distance_matrix.deep_view();
    match algorithm {
        Algorithm::HillClimb => {
            let r = hillclimb(starting_tour, distance_matrix, true);
            proof {
                let steps = choose|steps: nat|
                    steps <= tour_length(starting_tour@, m) - r.1 && r.0@ == #[trigger] hill_steps(
                        starting_tour@,
                        m,
                        1,
                        steps,
                    );
                assert(r.0@ == after_moves(algorithm, starting_tour@, m, steps));
            }
            r
        },
        Algorithm::TwoOpt => {
            let r = two_opt(starting_tour, distance_matrix, true);
            proof {
                let passes = choose|passes: nat|
                    r.0@ == #[trigger] two_opt_passes(starting_tour@, m, 1, passes);
                assert(r.0@ == after_moves(algorithm, starting_tour@, m, passes));
            }
            r
        },
    }
}

/// How one try for a starting tour ends.
#[derive(Debug, PartialEq, Eq)]
pub enum Attempt {
    /// The candidate is new: it is entered, and the search for a start
    /// ends with it.
    Found(Vec<usize>),
    /// The candidate is taken, and another may be tried.
    Again,
    /// The candidate is taken, and no retry is left.
    Spent,
}

/// The candidates `drawn` are a search for a starting tour from the set
/// `visited`: each is a tour of `n` nodes with node 0 first, all but the
/// last are taken, and the last is taken only where it is the one after
/// `max_retries` retries.
pub open spec fn is_search_for_start(
    visited: Set<Seq<usize>>,
    drawn: Seq<Seq<usize>>,
    n: nat,
    max_retries: int,
) -> bool {
    &&& 1 <= drawn.len() <= max_retries + 1
    &&& forall|k: int| 0 <= k < drawn.len() ==> is_start(#[trigger] drawn[k], n)
    &&& forall|k: int| 0 <= k < drawn.len() - 1 ==> visited.contains(#[trigger] drawn[k])
    &&& visited.contains(drawn.last()) ==> drawn.len() == max_retries + 1
}

/// What a search for a starting tour comes to: its last candidate, unless
/// that one is taken too.
pub open spec fn start_found(visited: Set<Seq<usize>>, drawn: Seq<Seq<usize>>) -> Option<
    Seq<usize>,
> {
    if visited.contains(drawn.last()) {
        None
    } else {
        Some(drawn.last())
    }
}

/// Tries `candidate` as a starting tour, after `retries` candidates that
/// were taken: a new one is entered in `visited_starting` and found; one
/// that is taken asks for another try, or ends the search where
/// `max_retries` retries have been made.
pub fn try_start(
    visited_starting: &mut StartingPoints,
    candidate: Vec<usize>,
    retries: usize,
    max_retries: usize,
) -> (a: Attempt)
    ensures
        a is Found <==> !old(visited_starting)@.contains(candidate@),
        a is Found ==> a->Found_0@ == candidate@ && final(visited_starting)@
            == old(visited_starting)@.insert(candidate@),
        !(a is Found) ==> final(visited_starting)@ == old(visited_starting)@,
        a is Spent <==> old(visited_starting)@.contains(candidate@) && retries >= max_retries,
        a is Again <==> old(visited_starting)@.contains(candidate@) && retries < max_retries,
{
    if visited_starting.contains(&candidate) {
        if retries >= max_retries {
            //can't find any new starting points
            Attempt::Spent
        } else {
            Attempt::Again
        }
    } else {
        visited_starting.insert(candidate.clone());
        Attempt::Found(candidate)
    }
}

/// Looks for a tour that no search has started from yet: random tours
/// with node 0 first are drawn until one is new, which is entered in
/// `visited_starting` and returned. After `max_retries` draws that were
/// not new, one more is tried, and `None` is returned if that one is not
/// new either.
///
/// Which tours are drawn is the generator's choice: the result is what
/// some search of at most `max_retries + 1` candidates comes to.
pub fn find_starting_point(
    visited_starting: &mut StartingPoints,
    distance_matrix: &Vec<Vec<i32>>,
    max_retries: usize,
) -> (r: Option<Vec<usize>>)
    ensures
        match r {
            Some(start) => {
                &&& is_start(start@, distance_matrix.len() as nat)
                &&& !old(visited_starting)@.contains(start@)
                &&& final(visited_starting)@ == old(visited_starting)@.insert(start@)
            },
            None => {
                &&& final(visited_starting)@ == old(visited_starting)@
                &&& exists|t: Seq<usize>|
                    is_start(t, distance_matrix.len() as nat)
                        && #[trigger] old(visited_starting)@.contains(t)
            },
        },
        (forall|t: Seq<usize>|
            is_start(t, distance_matrix.len() as nat)
                ==> #[trigger] old(visited_starting)@.contains(t)) ==> r is None,
        exists|drawn: Seq<Seq<usize>>|
            {
                &&& #[trigger] is_search_for_start(
                    old(visited_starting)@,
                    drawn,
                    distance_matrix.len() as nat,
                    max_retries as int,
                )
                &&& match r {
                    Some(start) => start_found(old(visited_starting)@, drawn) == Some(start@),
                    None => start_found(old(visited_starting)@, drawn) is None,
                }
            },
{
    let ghost visited = visited_starting@;
    let ghost n = distance_matrix.len() as nat;
    let ghost mut drawn: Seq<Seq<usize>> = Seq::empty();
    let mut retries: usize = 0;
    loop
        invariant
            retries <= max_retries,
            n == distance_matrix.len(),
            visited == old(visited_starting)@,
            visited_starting@ == visited,
            drawn.len() == retries,
            forall|k: int| 0 <= k < drawn.len() ==> is_start(#[trigger] drawn[k], n),
            forall|k: int| 0 <= k < drawn.len() ==> visited.contains(#[trigger] drawn[k]),
        decreases max_retries - retries,
    {
        let starting_solution: Vec<usize> = random_solution(distance_matrix.len(), None, true);
        proof {
            drawn = drawn.push(starting_solution@);
        }
        match try_start(visited_starting, starting_solution, retries, max_retries) {
            Attempt::Found(start) => {
                proof {
                    assert(is_search_for_start(visited, drawn, n, max_retries as int));
                    assert(start_found(visited, drawn) == Some(start@));
                }
                return Some(start);
            },
            Attempt::Spent => {
                proof {
                    assert(is_search_for_start(visited, drawn, n, max_retries as int));
                    assert(start_found(visited, drawn) is None);
                }
                return None;
            },
            Attempt::Again => {
                retries += 1;
            },
        }
    }
}

/// Runs up to `sample_count` searches, each from a starting tour that no
/// search has started from, and records where each ends. Stops early when
/// no new starting tour is found. Returns the number of searches run.
///
/// Which starting tours are found is the generator's choice: the set and
/// the table are what they are after searches from some new starting
/// tours, as many as the number returned.
pub fn sample(
    sample_count: usize,
    max_retries: usize,
    distance_matrix: &Vec<Vec<i32>>,
    local_minimums: &mut LocalOptima,
    visited_starting: &mut StartingPoints,
    algorithm: Algorithm,
) -> (found: usize)
    requires
        distance_matrix.len() > 0,
        is_distance_matrix(distance_matrix.deep_view()),
        every_tour_fits(distance_matrix.deep_view()),
        old(local_minimums).wf(),
        old(local_minimums).restarts() + sample_count <= i32::MAX,
    ensures
        final(local_minimums).wf(),
        found <= sample_count,
        final(local_minimums).restarts() == old(local_minimums).restarts() + found,
        exists|starts: Seq<Seq<usize>>|
            {
                &&& starts.len() == found
                &&& are_new_starts(old(visited_starting)@, starts, distance_matrix.len() as nat)
                &&& final(visited_starting)@ == #[trigger] set_after(
                    old(visited_starting)@,
                    starts,
                )
                &&& final(local_minimums)@ == table_after(
                    old(local_minimums)@,
                    starts,
                    algorithm,
                    distance_matrix.deep_view(),
                )
            },
        old(visited_starting)@.finite() ==> final(visited_starting)@.finite()
            && final(visited_starting)@.len() == old(visited_starting)@.len() + found,
        sample_count == 0 ==> final(visited_starting)@ == old(visited_starting)@
            && final(local_minimums)@ == old(local_minimums)@,
        sample_count > 0 && (forall|t: Seq<usize>|
            is_start(t, distance_matrix.len() as nat)
                ==> !#[trigger] old(visited_starting)@.contains(t)) ==> found >= 1,
        old(visited_starting)@.subset_of(final(visited_starting)@),
        forall|t: Seq<usize>| #[trigger]
            final(visited_starting)@.contains(t) ==> old(visited_starting)@.contains(t)
                || is_start(t, distance_matrix.len() as nat),
        found < sample_count ==> exists|t: Seq<usize>|
            is_start(t, distance_matrix.len() as nat)
                && #[trigger] final(visited_starting)@.contains(t),
        forall|t: Seq<usize>| #[trigger]
            old(local_minimums)@.contains_key(t) ==> {
                &&& final(local_minimums)@.contains_key(t)
                &&& final(local_minimums)@[t].0 == old(local_minimums)@[t].0
                &&& final(local_minimums)@[t].1 >= old(local_minimums)@[t].1
            },
        ends_in_optimum(algorithm, distance_matrix.deep_view()) && holds_optima_of(
            old(local_minimums)@,
            distance_matrix.deep_view(),
            algorithm,
        ) ==> holds_optima_of(final(local_minimums)@, distance_matrix.deep_view(), algorithm),
{
    let ghost m = distance_matrix.deep_view();
    let ghost n = distance_matrix.len() as nat;
    let ghost set_before = visited_starting@;
    let ghost table_before = local_minimums@;
    let ghost mut starts: Seq<Seq<usize>> = Seq::empty();
    let mut found: usize = 0;
    while found < sample_count
        invariant
            found <= sample_count,
            distance_matrix.len() > 0,
            n == distance_matrix.len(),
            m == distance_matrix.deep_view(),
            is_distance_matrix(m),
            every_tour_fits(m),
            local_minimums.wf(),
            local_minimums.restarts() == old(local_minimums).restarts() + found,
            old(local_minimums).restarts() + sample_count <= i32::MAX,
            set_before == old(visited_starting)@,
            table_before == old(local_minimums)@,
            starts.len() == found,
            are_new_starts(set_before, starts, n),
            visited_starting@ == set_after(set_before, starts),
            local_minimums@ == table_after(table_before, starts, algorithm, m),
            forall|k: int|
                0 <= k < starts.len() ==> visited_starting@.contains(#[trigger] starts[k]),
            set_before.finite() ==> visited_starting@.finite() && visited_starting@.len()
                == set_before.len() + found,
            set_before.subset_of(visited_starting@),
            forall|t: Seq<usize>| #[trigger]
                visited_starting@.contains(t) ==> set_before.contains(t) || is_start(t, n),
            forall|t: Seq<usize>| #[trigger]
                table_before.contains_key(t) ==> {
                    &&& local_minimums@.contains_key(t)
                    &&& local_minimums@[t].0 == table_before[t].0
                    &&& local_minimums@[t].1 >= table_before[t].1
                },
            ends_in_optimum(algorithm, m) && holds_optima_of(table_before, m, algorithm)
                ==> holds_optima_of(local_minimums@, m, algorithm),
        decreases sample_count - found,
    {
        let ghost set_now = visited_starting@;
        let starting_solution = find_starting_point(visited_starting, distance_matrix, max_retries);
        if starting_solution.is_none() {
            proof {
                assert(visited_starting@ == set_after(set_before, starts));
                assert(local_minimums@ == table_after(table_before, starts, algorithm, m));
            }
            return found;
        }
        let starting_solution: Vec<usize> = starting_solution.unwrap();
        assert(tour_length(starting_solution@, m) <= i32::MAX);

        let (tour, len) = descend(algorithm, &starting_solution, distance_matrix);

        let ghost table = local_minimums@;
        let ghost key = tour@;
        let ghost earlier = starts;
        local_minimums.record(tour, len);
        proof {
            starts = earlier.push(starting_solution@);
            assert(starts.drop_last() =~= earlier);
            assert(starts.last() == starting_solution@);
            assert forall|k: int| 0 <= k < starts.len() implies is_start(#[trigger] starts[k], n)
                && !set_before.contains(starts[k]) by {
                if k < earlier.len() {
                    assert(starts[k] == earlier[k]);
                }
            }
            assert forall|i: int, j: int| 0 <= i < j < starts.len() implies starts[i]
                != starts[j] by {
                assert(starts[i] == earlier[i]);
                if j < earlier.len() {
                    assert(starts[j] == earlier[j]);
                } else {
                    assert(set_now.contains(earlier[i]));
                }
            }
            assert forall|k: int| 0 <= k < starts.len() implies visited_starting@.contains(
                #[trigger] starts[k],
            ) by {
                if k < earlier.len() {
                    assert(starts[k] == earlier[k]);
                    assert(set_now.contains(earlier[k]));
                }
            }
            if ends_in_optimum(algorithm, m) && holds_optima_of(table, m, algorithm) {
                assert forall|t: Seq<usize>| #[trigger]
                    local_minimums@.contains_key(t) implies is_start(t, m.len())
                    && local_minimums@[t].0 == tour_length(t, m) && is_local_optimum(
                    algorithm,
                    t,
                    m,
                ) by {
                    if t != key {
                        assert(table.contains_key(t));
                    } else if table.contains_key(t) {
                        assert(local_minimums@[t].0 == table[t].0);
                    }
                }
            }
        }
        found += 1;
    }
    found
}

} // verus!
